//! Conservative formatting of Markfile text.
//!
//! Structural lines are normalised (titles, directives and specification
//! items get one space after their marker, sections are separated by one
//! blank line), description text keeps its indentation, and the result is
//! only handed out when it parses to the same content as the input.

use vstd::prelude::*;
use crate::model::ModulePath;
use crate::parser::{
    diag_views, has_error, spec_parse, Diagnostic, ImportView, ParseMode, ParsedModule, ParsedModuleView,
    ParsedTargetView, Parser, PublicView,
};
use crate::text::{
    all_whitespace, chars_eq, lemma_join_first, lemma_lines_join, lemma_lines_no_line_feed, lemma_trim_after_space,
    lemma_trim_end_blank, lemma_trim_end_last, lemma_trim_end_no_line_feed, lemma_trim_no_line_feed,
    lemma_trim_start_char_no_line_feed, lemma_trim_trimmed, lines_from, no_line_feed, strip_cr, chars_of, is_whitespace, join, lines, lines_chars, owned, push_chars, push_str,
    spec_is_whitespace, string_of, text_eq, texts, trim, trim_chars, trim_end, trim_end_chars,
    trim_start_char, trim_start_char_chars,
};

verus! {

/// Why a text cannot be formatted.
#[derive(Debug, PartialEq, Eq)]
pub enum FormatError {
    /// The text has diagnostics that block a build.
    Parse(Vec<Diagnostic>),
    /// Normalising the text would change what it declares.
    ChangedMeaning,
}

/// The line break of a text: `\r\n` when the first line that is not blank
/// ends with it, otherwise `\n`; `cur` is the line read so far.
pub open spec fn line_style_from(s: Seq<char>, cur: Seq<char>) -> Seq<char>
    decreases s.len(),
{
    if s.len() == 0 {
        "\n"@
    } else if s[0] == '\n' {
        if !all_whitespace(cur) {
            if cur.len() > 0 && cur.last() == '\r' {
                "\r\n"@
            } else {
                "\n"@
            }
        } else {
            line_style_from(s.drop_first(), seq![])
        }
    } else {
        line_style_from(s.drop_first(), cur.push(s[0]))
    }
}

/// The line break of a text.
pub open spec fn line_style(s: Seq<char>) -> Seq<char> {
    line_style_from(s, seq![])
}

/// The state of the normaliser: the current section (0 imports, 1 targets,
/// 2 public declarations), the lines written so far, and the number of
/// blank lines read but not written yet.
pub struct FmtState {
    pub section: nat,
    pub out: Seq<Seq<char>>,
    pub blanks: nat,
}

/// `value` follows a one-character marker: it is empty or starts with
/// white space.
pub open spec fn marker_value(value: Seq<char>) -> bool {
    value.len() == 0 || spec_is_whitespace(value[0])
}

/// `marker` followed by the trimmed value, with one space between them when
/// the value is not empty.
pub open spec fn marked(marker: Seq<char>, value: Seq<char>) -> Seq<char> {
    if trim(value).len() == 0 {
        marker
    } else {
        marker + " "@ + trim(value)
    }
}

/// The normalised form of a non-blank line, trailing white space removed,
/// in the given section.
pub open spec fn normalized(line: Seq<char>, section: nat) -> Seq<char> {
    if section == 1 && line.len() > 0 && line[0] == '#' {
        "# "@ + trim(trim_start_char(line, '#'))
    } else if line.len() > 0 && line[0] == '>' && marker_value(line.drop_first()) {
        marked(">"@, line.drop_first())
    } else if section == 1 && line.len() > 0 && line[0] == '-' && marker_value(line.drop_first()) {
        marked("-"@, line.drop_first())
    } else {
        line
    }
}

/// `n` empty lines.
pub open spec fn empty_lines(n: nat) -> Seq<Seq<char>>
    decreases n,
{
    if n == 0 {
        seq![]
    } else {
        empty_lines((n - 1) as nat).push(seq![])
    }
}

/// The normaliser after reading one more raw line.
pub open spec fn fmt_step(st: FmtState, raw: Seq<char>) -> FmtState {
    let line = trim_end(raw);
    if line.len() == 0 {
        FmtState { blanks: st.blanks + 1, ..st }
    } else {
        let separator = line == "---"@;
        let title = st.section == 1 && line[0] == '#';
        let spaced = if separator || title {
            if st.out.len() > 0 && st.out.last().len() > 0 {
                st.out.push(seq![])
            } else {
                st.out
            }
        } else if st.out.len() > 0 && st.out.last() == "---"@ {
            st.out.push(seq![])
        } else {
            st.out + empty_lines(st.blanks)
        };
        FmtState {
            section: if separator { st.section + 1 } else { st.section },
            out: spaced.push(normalized(line, st.section)),
            blanks: 0,
        }
    }
}

/// The normaliser after the first `k` raw lines.
pub open spec fn fmt_lines(ls: Seq<Seq<char>>, k: nat) -> FmtState
    decreases k,
{
    if k == 0 || k > ls.len() {
        FmtState { section: 0, out: seq![], blanks: 0 }
    } else {
        fmt_step(fmt_lines(ls, (k - 1) as nat), ls[k - 1])
    }
}

/// The normalised text: the written lines, each followed by the text's line
/// break.
pub open spec fn formatted_text(source: Seq<char>) -> Seq<char> {
    let ls = lines(source);
    join(fmt_lines(ls, ls.len()).out, line_style(source)) + line_style(source)
}

/// What a file declares, apart from line numbers: the imports with their
/// aliases, the targets with their dependencies, description and
/// specifications, and the public declarations, all in order.
pub open spec fn import_keys(v: Seq<ImportView>) -> Seq<(Seq<Seq<char>>, Option<Seq<char>>)> {
    v.map_values(|i: ImportView| (i.target.path, i.alias))
}

/// The content of a list of targets apart from line numbers.
pub open spec fn target_keys(v: Seq<ParsedTargetView>) -> Seq<(Seq<char>, Seq<Seq<Seq<char>>>, Seq<char>, Seq<Seq<char>>)> {
    v.map_values(|t: ParsedTargetView| (t.name, t.dependencies.map_values(|d: crate::parser::RefView| d.path), t.description, t.specifications))
}

/// The names of a list of public declarations.
pub open spec fn public_keys(v: Seq<PublicView>) -> Seq<Seq<char>> {
    v.map_values(|p: PublicView| p.name)
}

/// Two files declare the same content.
pub open spec fn equivalent(a: ParsedModuleView, b: ParsedModuleView) -> bool {
    &&& import_keys(a.includes) == import_keys(b.includes)
    &&& target_keys(a.targets) == target_keys(b.targets)
    &&& public_keys(a.public_targets) == public_keys(b.public_targets)
}

/// Whether the text's line break is `\r\n`.
fn uses_crlf(s: &[char]) -> (r: bool)
    ensures
        (if r { "\r\n"@ } else { "\n"@ }) == line_style(s@),
{
    let mut start: usize = 0;
    let mut blank = true;
    let mut i: usize = 0;
    assert(s@.skip(0) =~= s@);
    assert(s@.subrange(0, 0) =~= Seq::<char>::empty());
    while i < s.len()
        invariant
            start <= i <= s.len(),
            line_style(s@) == line_style_from(s@.skip(i as int), s@.subrange(start as int, i as int)),
            blank == all_whitespace(s@.subrange(start as int, i as int)),
        decreases s.len() - i,
    {
        let ghost cur = s@.subrange(start as int, i as int);
        assert(s@.skip(i as int)[0] == s@[i as int]);
        assert(s@.skip(i as int).drop_first() =~= s@.skip(i + 1));
        if s[i] == '\n' {
            if !blank {
                proof {
                    reveal_strlit("\r\n");
                    reveal_strlit("\n");
                    if i > start {
                        assert(cur.last() == s@[i - 1]);
                    }
                }
                return i > start && s[i - 1] == '\r';
            }
            start = i + 1;
            assert(s@.subrange(start as int, start as int) =~= Seq::<char>::empty());
        } else {
            let w = is_whitespace(s[i]);
            proof {
                let nxt = s@.subrange(start as int, i + 1);
                assert(nxt =~= cur.push(s@[i as int]));
                assert(all_whitespace(nxt) == (all_whitespace(cur) && spec_is_whitespace(s@[i as int]))) by {
                    if all_whitespace(cur) && spec_is_whitespace(s@[i as int]) {
                        assert forall|k: int| 0 <= k < nxt.len() implies #[trigger] spec_is_whitespace(nxt[k]) by {
                            if k < cur.len() {
                                assert(nxt[k] == cur[k]);
                            }
                        }
                    }
                    if !all_whitespace(cur) {
                        let k = choose|k: int| 0 <= k < cur.len() && !#[trigger] spec_is_whitespace(cur[k]);
                        assert(nxt[k] == cur[k]);
                    }
                    if !spec_is_whitespace(s@[i as int]) {
                        assert(nxt[cur.len() as int] == s@[i as int]);
                    }
                }
            }
            blank = blank && w;
        }
        i = i + 1;
    }
    proof {
        reveal_strlit("\n");
        assert(s@.skip(i as int).len() == 0);
    }
    false
}

/// `marker` followed by the trimmed value, with a space between them.
fn mark(marker: char, value: &[char]) -> (r: Vec<char>)
    ensures
        r@ == marked(seq![marker], value@),
{
    let v = trim_chars(value);
    let mut r: Vec<char> = Vec::new();
    r.push(marker);
    if v.len() > 0 {
        r.push(' ');
        let mut i: usize = 0;
        while i < v.len()
            invariant
                i <= v.len(),
                v@.len() > 0,
                r@ == seq![marker, ' '] + v@.take(i as int),
            decreases v.len() - i,
        {
            r.push(v[i]);
            assert(v@.take(i + 1) =~= v@.take(i as int).push(v@[i as int]));
            i = i + 1;
        }
        assert(v@.take(v.len() as int) =~= v@);
        proof {
            reveal_strlit(" ");
        }
        assert(r@ =~= seq![marker] + " "@ + v@);
    } else {
        assert(r@ =~= seq![marker]);
    }
    r
}

/// The normalised form of a non-blank line.
fn normalize_line(line: &[char], section: usize) -> (r: Vec<char>)
    ensures
        r@ == normalized(line@, section as nat),
{
    proof {
        reveal_strlit("# ");
        reveal_strlit(">");
        reveal_strlit("-");
    }
    if section == 1 && line.len() > 0 && line[0] == '#' {
        let rest = trim_start_char_chars(line, '#');
        let value = trim_chars(rest.as_slice());
        let mut r: Vec<char> = vec!['#', ' '];
        let mut i: usize = 0;
        while i < value.len()
            invariant
                i <= value.len(),
                r@ == seq!['#', ' '] + value@.take(i as int),
            decreases value.len() - i,
        {
            r.push(value[i]);
            assert(value@.take(i + 1) =~= value@.take(i as int).push(value@[i as int]));
            i = i + 1;
        }
        assert(value@.take(value.len() as int) =~= value@);
        assert(r@ =~= "# "@ + value@);
        return r;
    }
    if line.len() > 0 && line[0] == '>' && (line.len() == 1 || is_whitespace(line[1])) {
        let value = crate::text::copy_range(line, 1, line.len());
        assert(value@ =~= line@.drop_first());
        assert(seq!['>'] =~= ">"@);
        return mark('>', value.as_slice());
    }
    if section == 1 && line.len() > 0 && line[0] == '-' && (line.len() == 1 || is_whitespace(line[1])) {
        let value = crate::text::copy_range(line, 1, line.len());
        assert(value@ =~= line@.drop_first());
        assert(seq!['-'] =~= "-"@);
        return mark('-', value.as_slice());
    }
    proof {
        if line@.len() > 1 {
            assert(line@.drop_first()[0] == line@[1]);
        }
    }
    crate::text::copy_range(line, 0, line.len())
}

/// The views of a list of lines.
pub open spec fn line_views(v: Seq<Vec<char>>) -> Seq<Seq<char>> {
    v.map_values(|w: Vec<char>| w@)
}

/// Whether `v` is the separator line `---`.
fn is_separator(v: &[char]) -> (r: bool)
    ensures
        r == (v@ == "---"@),
{
    proof {
        reveal_strlit("---");
    }
    let r = v.len() == 3 && v[0] == '-' && v[1] == '-' && v[2] == '-';
    if r {
        assert(v@ =~= "---"@);
    }
    r
}

/// The normalised lines of a text.
fn normalize_lines(source: &[char]) -> (r: Vec<Vec<char>>)
    ensures
        line_views(r@) == fmt_lines(lines(source@), lines(source@).len()).out,
{
    let ls = lines_chars(source);
    let ghost lv = lines(source@);
    let mut section: usize = 0;
    let mut out: Vec<Vec<char>> = Vec::new();
    let mut blanks: usize = 0;
    let mut i: usize = 0;
    assert(line_views(out@) =~= seq![]);
    while i < ls.len()
        invariant
            i <= ls.len(),
            ls@.map_values(|w: Vec<char>| w@) == lv,
            section <= i,
            blanks <= i,
            (FmtState { section: section as nat, out: line_views(out@), blanks: blanks as nat }) == fmt_lines(lv, i as nat),
        decreases ls.len() - i,
    {
        let ghost st = fmt_lines(lv, i as nat);
        assert(lv[i as int] == ls@[i as int]@);
        let line = trim_end_chars(ls[i].as_slice());
        if line.len() == 0 {
            blanks = blanks + 1;
        } else {
            let separator = is_separator(line.as_slice());
            let title = section == 1 && line[0] == '#';
            let ghost before = line_views(out@);
            if separator || title {
                if out.len() > 0 && out[out.len() - 1].len() > 0 {
                    out.push(Vec::new());
                    assert(line_views(out@) =~= before.push(seq![]));
                }
            } else if out.len() > 0 && is_separator(out[out.len() - 1].as_slice()) {
                out.push(Vec::new());
                assert(line_views(out@) =~= before.push(seq![]));
            } else {
                let mut b: usize = 0;
                assert(before + empty_lines(0) =~= before);
                while b < blanks
                    invariant
                        b <= blanks,
                        line_views(out@) == before + empty_lines(b as nat),
                    decreases blanks - b,
                {
                    let ghost prior = line_views(out@);
                    out.push(Vec::new());
                    assert(line_views(out@) =~= prior.push(seq![]));
                    assert(line_views(out@) =~= before + empty_lines((b + 1) as nat));
                    b = b + 1;
                }
            }
            let norm = normalize_line(line.as_slice(), section);
            let ghost spaced = line_views(out@);
            out.push(norm);
            assert(line_views(out@) =~= spaced.push(normalized(trim_end(lv[i as int]), st.section)));
            blanks = 0;
            if separator {
                section = section + 1;
            }
        }
        i = i + 1;
    }
    out
}

/// Joins the lines, each followed by the line break.
fn join_lines(out: &Vec<Vec<char>>, crlf: bool) -> (r: String)
    ensures
        r@ == join(line_views(out@), if crlf { "\r\n"@ } else { "\n"@ }) + if crlf { "\r\n"@ } else { "\n"@ },
{
    let style: &str = if crlf { "\r\n" } else { "\n" };
    let ghost sv = style@;
    let ghost parts = line_views(out@);
    let mut r = String::new();
    let mut k: usize = 0;
    assert(r@ =~= join(parts.take(0), sv));
    while k < out.len()
        invariant
            k <= out.len(),
            parts == line_views(out@),
            sv == style@,
            r@ == join(parts.take(k as int), sv),
        decreases out.len() - k,
    {
        if k > 0 {
            push_str(&mut r, style);
        }
        push_chars(&mut r, out[k].as_slice());
        proof {
            assert(parts.take(k + 1).drop_last() =~= parts.take(k as int));
            assert(parts[k as int] == out@[k as int]@);
            if k == 0 {
                assert(parts.take(1) =~= seq![parts[0]]);
            }
        }
        k = k + 1;
    }
    assert(parts.take(out.len() as int) =~= parts);
    push_str(&mut r, style);
    r
}

/// Whether two lists of strings hold the same texts.
pub(crate) fn strings_eq(a: &[String], b: &[String]) -> (r: bool)
    ensures
        r == (texts(a@) == texts(b@)),
{
    if a.len() != b.len() {
        assert(texts(a@).len() != texts(b@).len());
        return false;
    }
    let mut i: usize = 0;
    while i < a.len()
        invariant
            i <= a.len(),
            a.len() == b.len(),
            forall|j: int| 0 <= j < i ==> (#[trigger] a@[j])@ == b@[j]@,
        decreases a.len() - i,
    {
        if !text_eq(a[i].as_str(), b[i].as_str()) {
            assert(texts(a@)[i as int] != texts(b@)[i as int]);
            return false;
        }
        i = i + 1;
    }
    assert(texts(a@) =~= texts(b@));
    true
}

/// Whether two lists of references have the same paths.
fn paths_eq(a: &[crate::parser::ParsedReference], b: &[crate::parser::ParsedReference]) -> (r: bool)
    ensures
        r == (crate::parser::ref_views(a@).map_values(|d: crate::parser::RefView| d.path)
            == crate::parser::ref_views(b@).map_values(|d: crate::parser::RefView| d.path)),
{
    let ghost pa = crate::parser::ref_views(a@).map_values(|d: crate::parser::RefView| d.path);
    let ghost pb = crate::parser::ref_views(b@).map_values(|d: crate::parser::RefView| d.path);
    if a.len() != b.len() {
        assert(pa.len() != pb.len());
        return false;
    }
    let mut i: usize = 0;
    while i < a.len()
        invariant
            i <= a.len(),
            a.len() == b.len(),
            pa == crate::parser::ref_views(a@).map_values(|d: crate::parser::RefView| d.path),
            pb == crate::parser::ref_views(b@).map_values(|d: crate::parser::RefView| d.path),
            forall|j: int| 0 <= j < i ==> #[trigger] pa[j] == pb[j],
        decreases a.len() - i,
    {
        assert(pa[i as int] == a@[i as int]@.path);
        assert(pb[i as int] == b@[i as int]@.path);
        if !strings_eq(a[i].path().segments(), b[i].path().segments()) {
            return false;
        }
        i = i + 1;
    }
    assert(pa =~= pb);
    true
}

/// Whether two optional texts are equal.
fn opt_eq(a: Option<&str>, b: Option<&str>) -> (r: bool)
    ensures
        r == (match (a, b) {
            (Some(x), Some(y)) => x@ == y@,
            (None, None) => true,
            _ => false,
        }),
{
    match (a, b) {
        (Some(x), Some(y)) => text_eq(x, y),
        (None, None) => true,
        _ => false,
    }
}

/// Whether two parsed files declare the same content.
fn same_content(a: &ParsedModule, b: &ParsedModule) -> (r: bool)
    ensures
        r == equivalent(a@, b@),
{
    let ai = a.includes();
    let bi = b.includes();
    let ghost ka = import_keys(a@.includes);
    let ghost kb = import_keys(b@.includes);
    if ai.len() != bi.len() {
        assert(ka.len() != kb.len());
        return false;
    }
    let mut i: usize = 0;
    while i < ai.len()
        invariant
            i <= ai.len(),
            ai.len() == bi.len(),
            crate::parser::import_views(ai@) == a@.includes,
            crate::parser::import_views(bi@) == b@.includes,
            ka == import_keys(a@.includes),
            kb == import_keys(b@.includes),
            forall|j: int| 0 <= j < i ==> #[trigger] ka[j] == kb[j],
        decreases ai.len() - i,
    {
        assert(ka[i as int] == (ai@[i as int]@.target.path, ai@[i as int]@.alias));
        assert(kb[i as int] == (bi@[i as int]@.target.path, bi@[i as int]@.alias));
        if !strings_eq(ai[i].target().path().segments(), bi[i].target().path().segments()) {
            return false;
        }
        if !opt_eq(ai[i].alias(), bi[i].alias()) {
            return false;
        }
        i = i + 1;
    }
    assert(ka =~= kb);
    let at = a.targets();
    let bt = b.targets();
    let ghost ta = target_keys(a@.targets);
    let ghost tb = target_keys(b@.targets);
    if at.len() != bt.len() {
        assert(ta.len() != tb.len());
        return false;
    }
    let mut j: usize = 0;
    while j < at.len()
        invariant
            j <= at.len(),
            at.len() == bt.len(),
            ka == kb,
            crate::parser::parsed_target_views(at@) == a@.targets,
            crate::parser::parsed_target_views(bt@) == b@.targets,
            ta == target_keys(a@.targets),
            tb == target_keys(b@.targets),
            forall|x: int| 0 <= x < j ==> #[trigger] ta[x] == tb[x],
        decreases at.len() - j,
    {
        let ghost x = at@[j as int]@;
        let ghost y = bt@[j as int]@;
        assert(ta[j as int] == (x.name, x.dependencies.map_values(|d: crate::parser::RefView| d.path), x.description, x.specifications));
        assert(tb[j as int] == (y.name, y.dependencies.map_values(|d: crate::parser::RefView| d.path), y.description, y.specifications));
        if !text_eq(at[j].name(), bt[j].name()) {
            return false;
        }
        if !paths_eq(at[j].dependencies(), bt[j].dependencies()) {
            return false;
        }
        if !text_eq(at[j].description(), bt[j].description()) {
            return false;
        }
        if !strings_eq(at[j].specifications(), bt[j].specifications()) {
            return false;
        }
        j = j + 1;
    }
    assert(ta =~= tb);
    let ap = a.public_targets();
    let bp = b.public_targets();
    let ghost pa = public_keys(a@.public_targets);
    let ghost pb = public_keys(b@.public_targets);
    if ap.len() != bp.len() {
        assert(pa.len() != pb.len());
        return false;
    }
    let mut k: usize = 0;
    while k < ap.len()
        invariant
            k <= ap.len(),
            ap.len() == bp.len(),
            ka == kb,
            ta == tb,
            crate::parser::public_views(ap@) == a@.public_targets,
            crate::parser::public_views(bp@) == b@.public_targets,
            pa == public_keys(a@.public_targets),
            pb == public_keys(b@.public_targets),
            forall|x: int| 0 <= x < k ==> #[trigger] pa[x] == pb[x],
        decreases ap.len() - k,
    {
        assert(pa[k as int] == ap@[k as int]@.name);
        assert(pb[k as int] == bp@[k as int]@.name);
        if !text_eq(ap[k].name(), bp[k].name()) {
            return false;
        }
        k = k + 1;
    }
    assert(pa =~= pb);
    true
}

/// Formats whole Markfile texts.
#[derive(Clone, Copy, Debug)]
pub struct Formatter;

impl Formatter {
    /// Creates a formatter.
    pub fn new() -> (r: Self) {
        Formatter
    }

    /// Formats a whole text: fails with the parser's diagnostics when the
    /// text does not parse, fails when the normalised text would declare
    /// other content, and otherwise returns the normalised text.
    pub fn format(&self, source: &str) -> (r: Result<String, FormatError>)
        ensures
            ({
                let before = spec_parse(ParseMode::Build, seq![], source@);
                let text = formatted_text(source@);
                let after = spec_parse(ParseMode::Build, seq![], text);
                &&& has_error(before.diagnostics) ==> (r matches Err(FormatError::Parse(d)) && diag_views(d@) == before.diagnostics)
                &&& !has_error(before.diagnostics) && !has_error(after.diagnostics) && equivalent(before.module, after.module)
                    ==> (r matches Ok(t) && t@ == text)
                &&& !has_error(before.diagnostics) && !(!has_error(after.diagnostics) && equivalent(before.module, after.module))
                    ==> r == Err::<String, FormatError>(FormatError::ChangedMeaning)
            }),
    {
        let parser = Parser::new(ParseMode::Build);
        let original = parser.parse(ModulePath::root(), source);
        if original.has_errors() {
            let (_, diagnostics) = original.into_parts();
            return Err(FormatError::Parse(diagnostics));
        }
        let chars = chars_of(source);
        let crlf = uses_crlf(chars.as_slice());
        let out = normalize_lines(chars.as_slice());
        let result = join_lines(&out, crlf);
        let formatted = parser.parse(ModulePath::root(), result.as_str());
        if formatted.has_errors() || !same_content(original.partial_module(), formatted.partial_module()) {
            return Err(FormatError::ChangedMeaning);
        }
        Ok(result)
    }
}

/// The state the normaliser starts in.
pub open spec fn fmt_start() -> FmtState {
    FmtState { section: 0, out: seq![], blanks: 0 }
}

/// The normaliser after reading `ls` from state `st`.
pub open spec fn fmt_run(st: FmtState, ls: Seq<Seq<char>>) -> FmtState
    decreases ls.len(),
{
    if ls.len() == 0 {
        st
    } else {
        fmt_step(fmt_run(st, ls.drop_last()), ls.last())
    }
}

/// A line the normaliser writes: empty, or holding something other than
/// white space and not ending with a carriage return; never a line feed.
pub open spec fn written_line(l: Seq<char>) -> bool {
    &&& no_line_feed(l)
    &&& (l.len() == 0 || (!all_whitespace(l) && l.last() != '\r'))
}

/// Reading the first `k` lines is running over them.
proof fn lemma_fmt_lines_run(ls: Seq<Seq<char>>, k: nat)
    requires
        k <= ls.len(),
    ensures
        fmt_lines(ls, k) == fmt_run(fmt_start(), ls.take(k as int)),
    decreases k,
{
    if k > 0 {
        lemma_fmt_lines_run(ls, (k - 1) as nat);
        assert(ls.take(k as int).drop_last() =~= ls.take(k - 1));
        assert(ls.take(k as int).last() == ls[k - 1]);
    } else {
        assert(ls.take(0) =~= Seq::<Seq<char>>::empty());
    }
}

/// Running over two pieces runs over one, then the other.
proof fn lemma_fmt_run_concat(st: FmtState, a: Seq<Seq<char>>, b: Seq<Seq<char>>)
    ensures
        fmt_run(st, a + b) == fmt_run(fmt_run(st, a), b),
    decreases b.len(),
{
    if b.len() == 0 {
        assert(a + b =~= a);
    } else {
        lemma_fmt_run_concat(st, a, b.drop_last());
        assert((a + b).drop_last() =~= a + b.drop_last());
        assert((a + b).last() == b.last());
    }
}

/// Blank lines are only counted.
proof fn lemma_fmt_run_blanks(section: nat, out: Seq<Seq<char>>, n: nat)
    ensures
        fmt_run(FmtState { section, out, blanks: 0 }, empty_lines(n)) == (FmtState { section, out, blanks: n }),
    decreases n,
{
    if n > 0 {
        lemma_fmt_run_blanks(section, out, (n - 1) as nat);
        assert(empty_lines(n).drop_last() =~= empty_lines((n - 1) as nat));
        assert(trim_end(Seq::<char>::empty()) == Seq::<char>::empty());
    } else {
        assert(empty_lines(0) =~= Seq::<Seq<char>>::empty());
    }
}

/// A line after a one-character marker, as the normaliser writes it, is
/// normalised to itself again.
proof fn lemma_marked_stable(marker: char, v: Seq<char>)
    requires
        marker == '>' || marker == '-',
        no_line_feed(v),
    ensures
        ({
            let nl = marked(seq![marker], v);
            let back = trim_end(nl);
            &&& back.len() > 0
            &&& back[0] == marker
            &&& back.drop_first().len() == 0 || back.drop_first()[0] == ' '
            &&& marked(seq![marker], back.drop_first()) == nl
            &&& marker_value(back.drop_first())
            &&& written_line(nl)
            &&& (back.len() == 1 || back[1] == ' ')
        }),
{
    let t = trim(v);
    lemma_trim_trimmed(v);
    lemma_trim_no_line_feed(v);
    let nl = marked(seq![marker], v);
    assert(!spec_is_whitespace(marker));
    if t.len() == 0 {
        assert(nl == seq![marker]);
        assert(trim_end(nl) == nl);
        assert(nl.drop_first() =~= Seq::<char>::empty());
        assert(trim(Seq::<char>::empty()) == Seq::<char>::empty());
        assert(!all_whitespace(nl)) by {
            assert(!spec_is_whitespace(nl[0]));
        }
    } else {
        reveal_strlit(" ");
        assert(nl == seq![marker] + " "@ + t);
        assert(nl.last() == t.last());
        assert(trim_end(nl) == nl);
        assert(nl.drop_first() =~= seq![' '] + t);
        lemma_trim_after_space(t);
        assert(spec_is_whitespace(' '));
        assert(!all_whitespace(nl)) by {
            assert(!spec_is_whitespace(nl[0]));
        }
        assert(no_line_feed(nl)) by {
            assert forall|i: int| 0 <= i < nl.len() implies nl[i] != '\n' by {
                if i >= 2 {
                    assert(nl[i] == t[i - 2]);
                }
            }
        }
    }
}

/// The normalised form of a line is normalised to itself again, is still a
/// separator exactly when the line was, and starts with the same character.
proof fn lemma_normalized_stable(line: Seq<char>, section: nat)
    requires
        line.len() > 0,
        !spec_is_whitespace(line.last()),
        no_line_feed(line),
    ensures
        ({
            let nl = normalized(line, section);
            let back = trim_end(nl);
            &&& back.len() > 0
            &&& normalized(back, section) == nl
            &&& (back == "---"@) == (line == "---"@)
            &&& back[0] == line[0]
            &&& written_line(nl)
        }),
{
    reveal_strlit("---");
    reveal_strlit("# ");
    let nl = normalized(line, section);
    let back = trim_end(nl);
    if section == 1 && line[0] == '#' {
        let rest = trim_start_char(line, '#');
        lemma_trim_start_char_no_line_feed(line, '#');
        let t = trim(rest);
        lemma_trim_trimmed(rest);
        lemma_trim_no_line_feed(rest);
        assert(nl == "# "@ + t);
        assert(spec_is_whitespace(' '));
        assert(!spec_is_whitespace('#'));
        if t.len() == 0 {
            assert(nl == seq!['#', ' ']);
            assert(nl.drop_last() =~= seq!['#']);
            assert(back == trim_end(seq!['#']));
            assert(back == seq!['#']);
            assert(seq!['#'].drop_first() =~= Seq::<char>::empty());
            assert(trim_start_char(seq!['#'], '#') == trim_start_char(Seq::<char>::empty(), '#'));
            assert(trim(Seq::<char>::empty()) == Seq::<char>::empty());
        } else {
            assert(nl.last() == t.last());
            assert(back == nl);
            assert(nl.drop_first() =~= seq![' '] + t);
            assert(trim_start_char(nl, '#') == trim_start_char(nl.drop_first(), '#'));
            assert((seq![' '] + t)[0] == ' ');
            assert(trim_start_char(nl.drop_first(), '#') == seq![' '] + t);
            lemma_trim_after_space(t);
            assert(no_line_feed(nl)) by {
                assert forall|i: int| 0 <= i < nl.len() implies nl[i] != '\n' by {
                    if i >= 2 {
                        assert(nl[i] == t[i - 2]);
                    }
                }
            }
        }
        assert(!all_whitespace(nl)) by {
            assert(!spec_is_whitespace(nl[0]));
        }
        assert(back != "---"@) by {
            assert(back[0] == '#');
        }
        assert(line != "---"@) by {
            assert(line[0] == '#');
        }
    } else if line[0] == '>' && marker_value(line.drop_first()) {
        assert(no_line_feed(line.drop_first())) by {
            assert forall|i: int| 0 <= i < line.drop_first().len() implies line.drop_first()[i] != '\n' by {
                assert(line.drop_first()[i] == line[i + 1]);
            }
        }
        lemma_marked_stable('>', line.drop_first());
        assert(">"@ == seq!['>']) by {
            reveal_strlit(">");
        }
        assert(back != "---"@) by {
            assert(back[0] == '>');
        }
        assert(line != "---"@) by {
            assert(line[0] == '>');
        }
    } else if section == 1 && line[0] == '-' && marker_value(line.drop_first()) {
        assert(no_line_feed(line.drop_first())) by {
            assert forall|i: int| 0 <= i < line.drop_first().len() implies line.drop_first()[i] != '\n' by {
                assert(line.drop_first()[i] == line[i + 1]);
            }
        }
        lemma_marked_stable('-', line.drop_first());
        assert("-"@ == seq!['-']) by {
            reveal_strlit("-");
        }
        assert(back != "---"@) by {
            if back.len() == 3 {
                assert(back[1] == ' ');
            }
        }
        assert(line != "---"@) by {
            if line == "---"@ {
                assert(line.drop_first()[0] == '-');
            }
        }
    } else {
        assert(nl == line);
        lemma_trim_end_last(line);
        assert(trim_end(line) == line);
        assert(!all_whitespace(line)) by {
            assert(!spec_is_whitespace(line[line.len() - 1]));
        }
        assert(spec_is_whitespace('\r'));
    }
}

/// Every one of `n` empty lines is empty.
proof fn lemma_empty_lines_empty(n: nat, j: int)
    requires
        0 <= j < n,
    ensures
        empty_lines(n).len() == n,
        empty_lines(n)[j] == Seq::<char>::empty(),
    decreases n,
{
    lemma_empty_lines_len(n);
    if j < n - 1 {
        lemma_empty_lines_empty((n - 1) as nat, j);
    }
}

/// `empty_lines(n)` has `n` lines.
proof fn lemma_empty_lines_len(n: nat)
    ensures
        empty_lines(n).len() == n,
    decreases n,
{
    if n > 0 {
        lemma_empty_lines_len((n - 1) as nat);
    }
}

/// Reading back what the normaliser wrote after any number of lines
/// rebuilds the same lines, in the same section, with no blank line left
/// pending; every written line is a written line.
proof fn lemma_fmt_replays(ls: Seq<Seq<char>>, k: nat)
    requires
        k <= ls.len(),
        forall|i: int| 0 <= i < ls.len() ==> no_line_feed(#[trigger] ls[i]),
    ensures
        ({
            let st = fmt_lines(ls, k);
            &&& fmt_run(fmt_start(), st.out) == (FmtState { section: st.section, out: st.out, blanks: 0 })
            &&& forall|i: int| 0 <= i < st.out.len() ==> written_line(#[trigger] st.out[i])
        }),
    decreases k,
{
    if k == 0 {
        assert(fmt_run(fmt_start(), Seq::<Seq<char>>::empty()) == fmt_start());
    } else {
        lemma_fmt_replays(ls, (k - 1) as nat);
        let st = fmt_lines(ls, (k - 1) as nat);
        let raw = ls[k - 1];
        let line = trim_end(raw);
        let next = fmt_lines(ls, k);
        assert(next == fmt_step(st, raw));
        if line.len() > 0 {
            assert(no_line_feed(raw));
            lemma_trim_end_no_line_feed(raw);
            lemma_trim_end_last(raw);
            lemma_normalized_stable(line, st.section);
            let nl = normalized(line, st.section);
            let separator = line == "---"@;
            let title = st.section == 1 && line[0] == '#';
            let e: nat = if separator || title {
                if st.out.len() > 0 && st.out.last().len() > 0 {
                    1
                } else {
                    0
                }
            } else if st.out.len() > 0 && st.out.last() == "---"@ {
                1
            } else {
                st.blanks
            };
            let spaced = st.out + empty_lines(e);
            assert(empty_lines(1) =~= seq![Seq::<char>::empty()]) by {
                assert(empty_lines(0) =~= Seq::<Seq<char>>::empty());
            }
            assert(empty_lines(0) =~= Seq::<Seq<char>>::empty());
            assert(next.out =~= spaced.push(nl));
            assert(spaced.push(nl).drop_last() =~= spaced);
            lemma_fmt_run_concat(fmt_start(), st.out, empty_lines(e));
            lemma_fmt_run_blanks(st.section, st.out, e);
            let mid = FmtState { section: st.section, out: st.out, blanks: e };
            assert(fmt_run(fmt_start(), spaced) == mid);
            assert(fmt_run(fmt_start(), next.out) == fmt_step(mid, nl));
            assert(fmt_step(mid, nl).out =~= spaced.push(nl));
            assert forall|i: int| 0 <= i < next.out.len() implies written_line(#[trigger] next.out[i]) by {
                if i < st.out.len() {
                    assert(next.out[i] == st.out[i]);
                } else if i < spaced.len() {
                    lemma_empty_lines_len(e);
                    lemma_empty_lines_empty(e, i - st.out.len());
                    assert(next.out[i] == empty_lines(e)[i - st.out.len()]);
                } else {
                    assert(next.out[i] == nl);
                }
            }
        } else {
            assert(next.out == st.out);
        }
    }
}

/// A text without line feeds joins the line whose break is being looked for.
proof fn lemma_style_pass(a: Seq<char>, s: Seq<char>, cur: Seq<char>)
    requires
        no_line_feed(a),
    ensures
        line_style_from(a + s, cur) == line_style_from(s, cur + a),
    decreases a.len(),
{
    if a.len() == 0 {
        assert(a + s =~= s);
        assert(cur + a =~= cur);
    } else {
        let t = a + s;
        assert(t[0] == a[0]);
        assert(t.drop_first() =~= a.drop_first() + s);
        assert(no_line_feed(a.drop_first())) by {
            assert forall|i: int| 0 <= i < a.drop_first().len() implies a.drop_first()[i] != '\n' by {
                assert(a.drop_first()[i] == a[i + 1]);
            }
        }
        lemma_style_pass(a.drop_first(), s, cur.push(a[0]));
        assert(cur.push(a[0]) + a.drop_first() =~= cur + a);
    }
}

/// Written lines each followed by `brk`, one of them not empty, have `brk`
/// as their line break.
proof fn lemma_style_of_written(parts: Seq<Seq<char>>, brk: Seq<char>)
    requires
        brk == "\n"@ || brk == "\r\n"@,
        parts.len() > 0,
        parts.last().len() > 0,
        forall|i: int| 0 <= i < parts.len() ==> written_line(#[trigger] parts[i]),
    ensures
        line_style(join(parts, brk) + brk) == brk,
    decreases parts.len(),
{
    reveal_strlit("\n");
    reveal_strlit("\r\n");
    let p0 = parts[0];
    assert(written_line(p0));
    let r: Seq<char> = if parts.len() == 1 {
        seq![]
    } else {
        join(parts.drop_first(), brk) + brk
    };
    if parts.len() == 1 {
        assert(join(parts, brk) + brk =~= p0 + brk + r);
    } else {
        lemma_join_first(parts, brk);
        assert(join(parts, brk) + brk =~= p0 + brk + r);
    }
    assert(p0 + brk + r =~= p0 + (brk + r));
    lemma_style_pass(p0, brk + r, seq![]);
    assert(Seq::<char>::empty() + p0 =~= p0);
    let t = brk + r;
    if p0.len() == 0 {
        assert(parts.len() > 1);
        let rest = parts.drop_first();
        assert forall|i: int| 0 <= i < rest.len() implies written_line(#[trigger] rest[i]) by {
            assert(rest[i] == parts[i + 1]);
        }
        lemma_style_of_written(rest, brk);
        if brk == "\n"@ {
            assert(t[0] == '\n');
            assert(t.drop_first() =~= r);
            assert(all_whitespace(p0));
        } else {
            assert(t[0] == '\r');
            assert(t.drop_first() =~= seq!['\n'] + r);
            let u = seq!['\n'] + r;
            assert(u.drop_first() =~= r);
            assert(all_whitespace(p0.push('\r'))) by {
                assert(p0.push('\r')[0] == '\r');
            }
            assert(line_style_from(t, p0) == line_style_from(u, p0.push('\r')));
        }
    } else {
        let i = choose|i: int| 0 <= i < p0.len() && !spec_is_whitespace(#[trigger] p0[i]);
        if brk == "\n"@ {
            assert(t[0] == '\n');
            assert(!all_whitespace(p0));
        } else {
            assert(t[0] == '\r');
            assert(t.drop_first() =~= seq!['\n'] + r);
            let u = seq!['\n'] + r;
            assert(p0.push('\r')[i] == p0[i]);
            assert(!all_whitespace(p0.push('\r')));
            assert(line_style_from(t, p0) == line_style_from(u, p0.push('\r')));
        }
    }
}

/// When nothing is written, every line was blank.
proof fn lemma_nothing_written(ls: Seq<Seq<char>>, k: nat)
    requires
        k <= ls.len(),
        fmt_lines(ls, k).out.len() == 0,
    ensures
        forall|i: int| 0 <= i < k ==> trim_end(#[trigger] ls[i]).len() == 0,
    decreases k,
{
    if k > 0 {
        let st = fmt_lines(ls, (k - 1) as nat);
        if trim_end(ls[k - 1]).len() == 0 {
            assert(st.out == fmt_lines(ls, k).out);
            lemma_nothing_written(ls, (k - 1) as nat);
        }
    }
}

/// A text whose lines are all blank has `\n` as its line break.
proof fn lemma_blank_style(s: Seq<char>, cur: Seq<char>)
    requires
        forall|i: int| 0 <= i < lines_from(s, cur).len() ==> trim_end(#[trigger] lines_from(s, cur)[i]).len() == 0,
    ensures
        line_style_from(s, cur) == "\n"@,
    decreases s.len(),
{
    if s.len() == 0 {
    } else if s[0] == '\n' {
        let rest = lines_from(s.drop_first(), seq![]);
        assert(lines_from(s, cur) == seq![strip_cr(cur)] + rest);
        assert(lines_from(s, cur)[0] == strip_cr(cur));
        lemma_trim_end_blank(strip_cr(cur));
        assert(all_whitespace(cur)) by {
            assert forall|i: int| 0 <= i < cur.len() implies #[trigger] spec_is_whitespace(cur[i]) by {
                if i < strip_cr(cur).len() {
                    assert(strip_cr(cur)[i] == cur[i]);
                } else {
                    assert(cur[i] == '\r');
                }
            }
        }
        assert forall|i: int| 0 <= i < rest.len() implies trim_end(#[trigger] rest[i]).len() == 0 by {
            assert(lines_from(s, cur)[i + 1] == rest[i]);
        }
        lemma_blank_style(s.drop_first(), seq![]);
    } else {
        assert(lines_from(s, cur) == lines_from(s.drop_first(), cur.push(s[0])));
        lemma_blank_style(s.drop_first(), cur.push(s[0]));
    }
}

/// The line break chosen for a text is `\n` or `\r\n`.
proof fn lemma_style_choice(s: Seq<char>, cur: Seq<char>)
    ensures
        line_style_from(s, cur) == "\n"@ || line_style_from(s, cur) == "\r\n"@,
    decreases s.len(),
{
    if s.len() > 0 {
        if s[0] == '\n' {
            if all_whitespace(cur) {
                lemma_style_choice(s.drop_first(), seq![]);
            }
        } else {
            lemma_style_choice(s.drop_first(), cur.push(s[0]));
        }
    }
}

/// Formatting is idempotent: the normalised form of a normalised text is
/// that text.
pub proof fn lemma_formatting_idempotent(source: Seq<char>)
    ensures
        formatted_text(formatted_text(source)) == formatted_text(source),
{
    reveal_strlit("\n");
    let ls = lines(source);
    let brk = line_style(source);
    lemma_style_choice(source, seq![]);
    let out = fmt_lines(ls, ls.len()).out;
    let text = formatted_text(source);
    assert(text == join(out, brk) + brk);
    lemma_lines_no_line_feed(source, seq![]);
    lemma_fmt_replays(ls, ls.len());
    if out.len() == 0 {
        lemma_nothing_written(ls, ls.len());
        lemma_blank_style(source, seq![]);
        assert(text == "\n"@);
        let ls2 = lines(text);
        assert(text[0] == '\n');
        assert(text.drop_first() =~= Seq::<char>::empty());
        assert(ls2 == seq![strip_cr(Seq::<char>::empty())] + lines_from(Seq::<char>::empty(), seq![]));
        assert(ls2 =~= seq![Seq::<char>::empty()]);
        assert(fmt_lines(ls2, 0) == fmt_start());
        assert(trim_end(Seq::<char>::empty()) == Seq::<char>::empty());
        assert(fmt_lines(ls2, 1).out =~= Seq::<Seq<char>>::empty());
        assert(all_whitespace(Seq::<char>::empty()));
        assert(line_style(text) == line_style_from(Seq::<char>::empty(), seq![]));
    } else {
        assert forall|i: int| 0 <= i < out.len() implies no_line_feed(#[trigger] out[i]) by {
            assert(written_line(out[i]));
        }
        assert forall|i: int| 0 <= i < out.len() implies (#[trigger] out[i]).len() == 0 || out[i].last() != '\r' by {
            assert(written_line(out[i]));
        }
        lemma_lines_join(out, brk);
        assert(lines(text) == out);
        lemma_fmt_lines_run(out, out.len());
        assert(out.take(out.len() as int) =~= out);
        assert(fmt_lines(out, out.len()).out == out);
        assert(out.last().len() > 0) by {
            lemma_fmt_last_written(ls, ls.len());
        }
        lemma_style_of_written(out, brk);
    }
}

/// The last line written is never blank.
proof fn lemma_fmt_last_written(ls: Seq<Seq<char>>, k: nat)
    requires
        k <= ls.len(),
    ensures
        fmt_lines(ls, k).out.len() > 0 ==> fmt_lines(ls, k).out.last().len() > 0,
    decreases k,
{
    if k > 0 {
        lemma_fmt_last_written(ls, (k - 1) as nat);
        let st = fmt_lines(ls, (k - 1) as nat);
        let line = trim_end(ls[k - 1]);
        if line.len() > 0 {
            let nl = normalized(line, st.section);
            assert(fmt_lines(ls, k).out.last() == nl);
            reveal_strlit("# ");
            if st.section == 1 && line[0] == '#' {
                assert(nl.len() >= 2);
            } else if line[0] == '>' && marker_value(line.drop_first()) {
                reveal_strlit(">");
                assert(nl.len() >= 1);
            } else if st.section == 1 && line[0] == '-' && marker_value(line.drop_first()) {
                reveal_strlit("-");
                assert(nl.len() >= 1);
            }
        }
    }
}

/// Formatting a formatted text succeeds and gives it back unchanged: when
/// `Formatter::format` accepts a text, it accepts its result too and
/// returns that result as it is.
pub proof fn lemma_format_of_formatted_is_unchanged(source: Seq<char>)
    requires
        ({
            let before = spec_parse(ParseMode::Build, seq![], source);
            let after = spec_parse(ParseMode::Build, seq![], formatted_text(source));
            !has_error(before.diagnostics) && !has_error(after.diagnostics) && equivalent(before.module, after.module)
        }),
    ensures
        ({
            let text = formatted_text(source);
            let before = spec_parse(ParseMode::Build, seq![], text);
            let after = spec_parse(ParseMode::Build, seq![], formatted_text(text));
            &&& formatted_text(text) == text
            &&& !has_error(before.diagnostics) && !has_error(after.diagnostics) && equivalent(before.module, after.module)
        }),
{
    lemma_formatting_idempotent(source);
}

} // verus!
