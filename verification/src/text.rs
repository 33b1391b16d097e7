//! Character-level text helpers shared by the parser, formatter and renderers.
//!
//! Text is handled as sequences of Unicode scalar values (`Seq<char>`), which is
//! the view Verus gives to `str` and `String`.

use vstd::prelude::*;

verus! {

/// `String::push` appends one character to the end of the string.
pub assume_specification[ String::push ](s: &mut String, ch: char)
    ensures
        final(s)@ == old(s)@.push(ch),
;

/// Membership in the Unicode `White_Space` property, the set that
/// `char::is_whitespace` recognises.
pub open spec fn spec_is_whitespace(c: char) -> bool {
    let u = c as u32;
    ||| 9 <= u <= 13
    ||| u == 32
    ||| u == 0x85
    ||| u == 0xA0
    ||| u == 0x1680
    ||| 0x2000 <= u <= 0x200A
    ||| u == 0x2028
    ||| u == 0x2029
    ||| u == 0x202F
    ||| u == 0x205F
    ||| u == 0x3000
}

/// Membership in the Unicode general category `Cc` (control characters).
pub open spec fn spec_is_control(c: char) -> bool {
    let u = c as u32;
    u <= 0x1F || (0x7F <= u <= 0x9F)
}

/// Tests whether `c` is Unicode white space.
pub fn is_whitespace(c: char) -> (r: bool)
    ensures
        r == spec_is_whitespace(c),
{
    let u = c as u32;
    (9 <= u && u <= 13) || u == 32 || u == 0x85 || u == 0xA0 || u == 0x1680 || (0x2000 <= u && u
        <= 0x200A) || u == 0x2028 || u == 0x2029 || u == 0x202F || u == 0x205F || u == 0x3000
}

/// Tests whether `c` is a Unicode control character.
pub fn is_control(c: char) -> (r: bool)
    ensures
        r == spec_is_control(c),
{
    let u = c as u32;
    u <= 0x1F || (0x7F <= u && u <= 0x9F)
}

/// `s` without its trailing white space.
pub open spec fn trim_end(s: Seq<char>) -> Seq<char>
    decreases s.len(),
{
    if s.len() > 0 && spec_is_whitespace(s.last()) {
        trim_end(s.drop_last())
    } else {
        s
    }
}

/// `s` without its leading white space.
pub open spec fn trim_start(s: Seq<char>) -> Seq<char>
    decreases s.len(),
{
    if s.len() > 0 && spec_is_whitespace(s[0]) {
        trim_start(s.drop_first())
    } else {
        s
    }
}

/// `s` without leading or trailing white space.
pub open spec fn trim(s: Seq<char>) -> Seq<char> {
    trim_start(trim_end(s))
}

/// `s` with every leading occurrence of `c` removed.
pub open spec fn trim_start_char(s: Seq<char>, c: char) -> Seq<char>
    decreases s.len(),
{
    if s.len() > 0 && s[0] == c {
        trim_start_char(s.drop_first(), c)
    } else {
        s
    }
}

/// True when every character of `s` is white space.
pub open spec fn all_whitespace(s: Seq<char>) -> bool {
    forall|i: int| 0 <= i < s.len() ==> #[trigger] spec_is_whitespace(s[i])
}

/// True when `s` contains two consecutive colons.
pub open spec fn has_double_colon(s: Seq<char>) -> bool {
    exists|i: int| 0 <= i < s.len() - 1 && #[trigger] s[i] == ':' && s[i + 1] == ':'
}

/// True when `s` contains the character `c`.
pub open spec fn has_char(s: Seq<char>, c: char) -> bool {
    exists|i: int| 0 <= i < s.len() && s[i] == c
}

/// The pieces of `s` between occurrences of `::`, scanning left to right
/// (the pieces `str::split("::")` yields), where `cur` is the piece read so far.
pub open spec fn split_colons_from(s: Seq<char>, cur: Seq<char>) -> Seq<Seq<char>>
    decreases s.len(),
{
    if s.len() == 0 {
        seq![cur]
    } else if s.len() >= 2 && s[0] == ':' && s[1] == ':' {
        seq![cur] + split_colons_from(s.skip(2), seq![])
    } else {
        split_colons_from(s.drop_first(), cur.push(s[0]))
    }
}

/// The pieces of `s` between occurrences of `::`.
pub open spec fn split_colons(s: Seq<char>) -> Seq<Seq<char>> {
    split_colons_from(s, seq![])
}

/// The maximal runs of non-white-space characters of `s`, in order, where
/// `cur` is the run read so far.
pub open spec fn words_from(s: Seq<char>, cur: Seq<char>) -> Seq<Seq<char>>
    decreases s.len(),
{
    if s.len() == 0 {
        if cur.len() == 0 {
            seq![]
        } else {
            seq![cur]
        }
    } else if spec_is_whitespace(s[0]) {
        (if cur.len() == 0 {
            seq![]
        } else {
            seq![cur]
        }) + words_from(s.drop_first(), seq![])
    } else {
        words_from(s.drop_first(), cur.push(s[0]))
    }
}

/// The white-space separated words of `s`.
pub open spec fn words(s: Seq<char>) -> Seq<Seq<char>> {
    words_from(s, seq![])
}

/// `line` without one trailing carriage return.
pub open spec fn strip_cr(line: Seq<char>) -> Seq<char> {
    if line.len() > 0 && line.last() == '\r' {
        line.drop_last()
    } else {
        line
    }
}

/// The lines of `s` as `str::lines` yields them, where `cur` is the line read
/// so far: lines end at `\n`, a `\r` right before the `\n` is dropped, and a
/// final line ending does not open an empty last line.
pub open spec fn lines_from(s: Seq<char>, cur: Seq<char>) -> Seq<Seq<char>>
    decreases s.len(),
{
    if s.len() == 0 {
        if cur.len() == 0 {
            seq![]
        } else {
            seq![cur]
        }
    } else if s[0] == '\n' {
        seq![strip_cr(cur)] + lines_from(s.drop_first(), seq![])
    } else {
        lines_from(s.drop_first(), cur.push(s[0]))
    }
}

/// The lines of `s`.
pub open spec fn lines(s: Seq<char>) -> Seq<Seq<char>> {
    lines_from(s, seq![])
}

/// The concatenation of `parts` with `sep` between neighbours.
pub open spec fn join(parts: Seq<Seq<char>>, sep: Seq<char>) -> Seq<char>
    decreases parts.len(),
{
    if parts.len() == 0 {
        seq![]
    } else if parts.len() == 1 {
        parts[0]
    } else {
        join(parts.drop_last(), sep) + sep + parts.last()
    }
}

/// Strict lexicographic order of character sequences by code point, the order
/// of `String` (UTF-8 preserves code point order byte by byte).
pub open spec fn text_lt(a: Seq<char>, b: Seq<char>) -> bool
    decreases a.len(),
{
    if b.len() == 0 {
        false
    } else if a.len() == 0 {
        true
    } else if a[0] < b[0] {
        true
    } else if a[0] > b[0] {
        false
    } else {
        text_lt(a.drop_first(), b.drop_first())
    }
}

/// Collects the characters of `s` in order.
pub fn chars_of(s: &str) -> (v: Vec<char>)
    ensures
        v@ == s@,
{
    let mut v: Vec<char> = Vec::new();
    for c in it: s.chars()
        invariant
            v@ == it.seq().take(it.index() as int),
            it.seq() == s@,
    {
        v.push(c);
    }
    v
}

/// Builds a string holding exactly the given characters.
pub fn string_of(v: &[char]) -> (s: String)
    ensures
        s@ == v@,
{
    let mut s = String::new();
    let mut i: usize = 0;
    while i < v.len()
        invariant
            i <= v.len(),
            s@ == v@.take(i as int),
        decreases v.len() - i,
    {
        s.push(v[i]);
        i = i + 1;
        assert(v@.take(i as int) == v@.take((i - 1) as int).push(v@[i - 1]));
    }
    assert(v@.take(v.len() as int) == v@);
    s
}

/// Appends the characters of `extra` to `s`.
pub fn push_chars(s: &mut String, extra: &[char])
    ensures
        final(s)@ == old(s)@ + extra@,
{
    let mut i: usize = 0;
    while i < extra.len()
        invariant
            i <= extra.len(),
            s@ == old(s)@ + extra@.take(i as int),
        decreases extra.len() - i,
    {
        s.push(extra[i]);
        i = i + 1;
        assert(extra@.take(i as int) == extra@.take((i - 1) as int).push(extra@[i - 1]));
    }
    assert(extra@.take(extra.len() as int) == extra@);
}

/// Appends the text `extra` to `s`.
pub fn push_str(s: &mut String, extra: &str)
    ensures
        final(s)@ == old(s)@ + extra@,
{
    let v = chars_of(extra);
    push_chars(s, v.as_slice());
}

/// Copies a string.
pub fn copy_string(s: &String) -> (r: String)
    ensures
        r@ == s@,
{
    s.clone()
}

/// Copies a text slice into an owned string.
pub fn owned(s: &str) -> (r: String)
    ensures
        r@ == s@,
{
    let v = chars_of(s);
    string_of(v.as_slice())
}

/// Tests two texts for equality.
pub fn text_eq(a: &str, b: &str) -> (r: bool)
    ensures
        r == (a@ == b@),
{
    let x = chars_of(a);
    let y = chars_of(b);
    chars_eq(&x, &y)
}

/// Tests two character sequences for equality.
pub fn chars_eq(a: &[char], b: &[char]) -> (r: bool)
    ensures
        r == (a@ == b@),
{
    if a.len() != b.len() {
        return false;
    }
    let mut i: usize = 0;
    while i < a.len()
        invariant
            i <= a.len(),
            a.len() == b.len(),
            forall|j: int| 0 <= j < i ==> a@[j] == b@[j],
        decreases a.len() - i,
    {
        if a[i] != b[i] {
            return false;
        }
        i = i + 1;
    }
    assert(a@ =~= b@);
    true
}

/// Strict lexicographic comparison of two texts.
pub fn text_less(a: &str, b: &str) -> (r: bool)
    ensures
        r == text_lt(a@, b@),
{
    let x = chars_of(a);
    let y = chars_of(b);
    chars_less(&x, &y)
}

/// Strict lexicographic comparison of two character sequences.
pub fn chars_less(a: &[char], b: &[char]) -> (r: bool)
    ensures
        r == text_lt(a@, b@),
{
    let mut i: usize = 0;
    assert(a@.skip(0) == a@);
    assert(b@.skip(0) == b@);
    while i < a.len() && i < b.len()
        invariant
            i <= a.len(),
            i <= b.len(),
            text_lt(a@, b@) == text_lt(a@.skip(i as int), b@.skip(i as int)),
        decreases a.len() - i,
    {
        let ca = a[i];
        let cb = b[i];
        assert(a@.skip(i as int)[0] == a@[i as int]);
        assert(b@.skip(i as int)[0] == b@[i as int]);
        if ca < cb {
            return true;
        }
        if ca > cb {
            return false;
        }
        assert(a@.skip(i as int).drop_first() == a@.skip(i + 1));
        assert(b@.skip(i as int).drop_first() == b@.skip(i + 1));
        i = i + 1;
    }
    i < b.len()
}


/// The views of a sequence of strings.
pub open spec fn texts(v: Seq<String>) -> Seq<Seq<char>> {
    v.map_values(|s: String| s@)
}

/// Copies `s[from..to]`.
pub fn copy_range(s: &[char], from: usize, to: usize) -> (r: Vec<char>)
    requires
        from <= to <= s.len(),
    ensures
        r@ == s@.subrange(from as int, to as int),
{
    let mut r: Vec<char> = Vec::new();
    let mut i = from;
    while i < to
        invariant
            from <= i <= to,
            to <= s.len(),
            r@ == s@.subrange(from as int, i as int),
        decreases to - i,
    {
        r.push(s[i]);
        i = i + 1;
        assert(s@.subrange(from as int, i as int) == s@.subrange(from as int, (i - 1) as int).push(
            s@[i - 1],
        ));
    }
    r
}

/// Removes trailing white space.
pub fn trim_end_chars(s: &[char]) -> (r: Vec<char>)
    ensures
        r@ == trim_end(s@),
{
    let mut e = s.len();
    assert(s@.take(e as int) == s@);
    while e > 0 && is_whitespace(s[e - 1])
        invariant
            e <= s.len(),
            trim_end(s@) == trim_end(s@.take(e as int)),
        decreases e,
    {
        assert(s@.take(e as int).drop_last() == s@.take(e - 1));
        e = e - 1;
    }
    copy_range(s, 0, e)
}

/// Removes leading white space.
pub fn trim_start_chars(s: &[char]) -> (r: Vec<char>)
    ensures
        r@ == trim_start(s@),
{
    let mut b: usize = 0;
    assert(s@.skip(0) == s@);
    while b < s.len() && is_whitespace(s[b])
        invariant
            b <= s.len(),
            trim_start(s@) == trim_start(s@.skip(b as int)),
        decreases s.len() - b,
    {
        assert(s@.skip(b as int).drop_first() == s@.skip(b + 1));
        b = b + 1;
    }
    copy_range(s, b, s.len())
}

/// Removes leading and trailing white space.
pub fn trim_chars(s: &[char]) -> (r: Vec<char>)
    ensures
        r@ == trim(s@),
{
    let t = trim_end_chars(s);
    trim_start_chars(t.as_slice())
}

/// Removes every leading occurrence of `c`.
pub fn trim_start_char_chars(s: &[char], c: char) -> (r: Vec<char>)
    ensures
        r@ == trim_start_char(s@, c),
{
    let mut b: usize = 0;
    assert(s@.skip(0) == s@);
    while b < s.len() && s[b] == c
        invariant
            b <= s.len(),
            trim_start_char(s@, c) == trim_start_char(s@.skip(b as int), c),
        decreases s.len() - b,
    {
        assert(s@.skip(b as int).drop_first() == s@.skip(b + 1));
        b = b + 1;
    }
    copy_range(s, b, s.len())
}

/// Tests whether every character is white space.
pub fn is_blank(s: &[char]) -> (r: bool)
    ensures
        r == all_whitespace(s@),
{
    let mut i: usize = 0;
    while i < s.len()
        invariant
            i <= s.len(),
            forall|j: int| 0 <= j < i ==> #[trigger] spec_is_whitespace(s@[j]),
        decreases s.len() - i,
    {
        if !is_whitespace(s[i]) {
            return false;
        }
        i = i + 1;
    }
    true
}

/// Tests whether `s` contains `::`.
pub fn contains_double_colon(s: &[char]) -> (r: bool)
    ensures
        r == has_double_colon(s@),
{
    let mut i: usize = 0;
    while i < s.len() && i + 1 < s.len()
        invariant
            forall|j: int| 0 <= j < i && j < s.len() - 1 ==> !(#[trigger] s@[j] == ':' && s@[j + 1] == ':'),
        decreases s.len() - i,
    {
        if s[i] == ':' && s[i + 1] == ':' {
            return true;
        }
        i = i + 1;
    }
    false
}

/// Tests whether `s` contains `c`.
pub fn contains_char(s: &[char], c: char) -> (r: bool)
    ensures
        r == has_char(s@, c),
{
    let mut i: usize = 0;
    while i < s.len()
        invariant
            i <= s.len(),
            forall|j: int| 0 <= j < i ==> s@[j] != c,
        decreases s.len() - i,
    {
        if s[i] == c {
            return true;
        }
        i = i + 1;
    }
    false
}

/// Splits `s` at every `::`.
pub fn split_colons_chars(s: &[char]) -> (r: Vec<String>)
    ensures
        texts(r@) == split_colons(s@),
{
    let mut r: Vec<String> = Vec::new();
    let mut cur: Vec<char> = Vec::new();
    let mut i: usize = 0;
    assert(s@.skip(0) == s@);
    while i < s.len()
        invariant
            i <= s.len(),
            split_colons(s@) == texts(r@) + split_colons_from(s@.skip(i as int), cur@),
        decreases s.len() - i,
    {
        let ghost rest = s@.skip(i as int);
        if i + 1 < s.len() && s[i] == ':' && s[i + 1] == ':' {
            assert(rest.skip(2) == s@.skip(i + 2));
            let piece = string_of(cur.as_slice());
            let ghost old_r = r@;
            r.push(piece);
            assert(texts(r@) == texts(old_r) + seq![cur@]);
            cur = Vec::new();
            i = i + 2;
        } else {
            assert(rest.drop_first() == s@.skip(i + 1));
            cur.push(s[i]);
            i = i + 1;
        }
    }
    let piece = string_of(cur.as_slice());
    let ghost old_r = r@;
    r.push(piece);
    assert(texts(r@) == texts(old_r) + seq![cur@]);
    r
}

/// Splits `s` into its white-space separated words.
pub fn words_chars(s: &[char]) -> (r: Vec<Vec<char>>)
    ensures
        r@.map_values(|w: Vec<char>| w@) == words(s@),
{
    let mut r: Vec<Vec<char>> = Vec::new();
    let mut cur: Vec<char> = Vec::new();
    let mut i: usize = 0;
    assert(s@.skip(0) == s@);
    while i < s.len()
        invariant
            i <= s.len(),
            words(s@) == r@.map_values(|w: Vec<char>| w@) + words_from(s@.skip(i as int), cur@),
        decreases s.len() - i,
    {
        let ghost rest = s@.skip(i as int);
        assert(rest.drop_first() == s@.skip(i + 1));
        if is_whitespace(s[i]) {
            if cur.len() > 0 {
                let ghost old_r = r@;
                r.push(cur);
                assert(r@.map_values(|w: Vec<char>| w@) == old_r.map_values(|w: Vec<char>| w@) + seq![cur@]);
            } else {
                assert(cur@.len() == 0);
            }
            cur = Vec::new();
        } else {
            cur.push(s[i]);
        }
        i = i + 1;
    }
    if cur.len() > 0 {
        let ghost old_r = r@;
        r.push(cur);
        assert(r@.map_values(|w: Vec<char>| w@) == old_r.map_values(|w: Vec<char>| w@) + seq![cur@]);
    } else {
        assert(r@.map_values(|w: Vec<char>| w@) + seq![] == r@.map_values(|w: Vec<char>| w@));
    }
    r
}

/// Splits `s` into lines.
pub fn lines_chars(s: &[char]) -> (r: Vec<Vec<char>>)
    ensures
        r@.map_values(|w: Vec<char>| w@) == lines(s@),
{
    let mut r: Vec<Vec<char>> = Vec::new();
    let mut cur: Vec<char> = Vec::new();
    let mut i: usize = 0;
    assert(s@.skip(0) == s@);
    while i < s.len()
        invariant
            i <= s.len(),
            lines(s@) == r@.map_values(|w: Vec<char>| w@) + lines_from(s@.skip(i as int), cur@),
        decreases s.len() - i,
    {
        let ghost rest = s@.skip(i as int);
        assert(rest.drop_first() == s@.skip(i + 1));
        if s[i] == '\n' {
            if cur.len() > 0 && cur[cur.len() - 1] == '\r' {
                cur.pop();
            }
            let ghost old_r = r@;
            r.push(cur);
            assert(r@.map_values(|w: Vec<char>| w@) == old_r.map_values(|w: Vec<char>| w@) + seq![cur@]);
            cur = Vec::new();
        } else {
            cur.push(s[i]);
        }
        i = i + 1;
    }
    if cur.len() > 0 {
        let ghost old_r = r@;
        r.push(cur);
        assert(r@.map_values(|w: Vec<char>| w@) == old_r.map_values(|w: Vec<char>| w@) + seq![cur@]);
    } else {
        assert(r@.map_values(|w: Vec<char>| w@) + seq![] == r@.map_values(|w: Vec<char>| w@));
    }
    r
}

/// The decimal digit for `d < 10`.
pub open spec fn digit_char(d: nat) -> char {
    if d == 0 { '0' } else if d == 1 { '1' } else if d == 2 { '2' } else if d == 3 { '3' }
    else if d == 4 { '4' } else if d == 5 { '5' } else if d == 6 { '6' } else if d == 7 { '7' }
    else if d == 8 { '8' } else { '9' }
}

/// The decimal notation of `n`, without leading zeros.
pub open spec fn decimal(n: nat) -> Seq<char>
    decreases n,
{
    if n < 10 {
        seq![digit_char(n)]
    } else {
        decimal(n / 10) + seq![digit_char(n % 10)]
    }
}

/// The character of one decimal digit.
fn digit(d: usize) -> (c: char)
    requires
        d < 10,
    ensures
        c == digit_char(d as nat),
{
    if d == 0 { '0' } else if d == 1 { '1' } else if d == 2 { '2' } else if d == 3 { '3' }
    else if d == 4 { '4' } else if d == 5 { '5' } else if d == 6 { '6' } else if d == 7 { '7' }
    else if d == 8 { '8' } else { '9' }
}

/// Appends the decimal notation of `n` to `s`.
pub fn push_decimal(s: &mut String, n: usize)
    ensures
        final(s)@ == old(s)@ + decimal(n as nat),
    decreases n,
{
    if n >= 10 {
        push_decimal(s, n / 10);
    }
    s.push(digit(n % 10));
}

/// Trimming from the end leaves white space only if there was nothing
/// else.
pub proof fn lemma_trim_end_blank(s: Seq<char>)
    ensures
        (trim_end(s).len() == 0) == all_whitespace(s),
    decreases s.len(),
{
    if s.len() > 0 && spec_is_whitespace(s.last()) {
        lemma_trim_end_blank(s.drop_last());
        if all_whitespace(s.drop_last()) {
            assert forall|i: int| 0 <= i < s.len() implies #[trigger] spec_is_whitespace(s[i]) by {
                if i < s.len() - 1 {
                    assert(s.drop_last()[i] == s[i]);
                }
            }
        }
        if all_whitespace(s) {
            assert forall|i: int| 0 <= i < s.drop_last().len() implies #[trigger] spec_is_whitespace(s.drop_last()[i]) by {
                assert(s.drop_last()[i] == s[i]);
            }
        }
    } else if s.len() > 0 {
        assert(!spec_is_whitespace(s[s.len() - 1]));
    }
}

/// Trimming from the start keeps a text that does not start blank.
proof fn lemma_trim_start_empty(s: Seq<char>)
    ensures
        (trim_start(s).len() == 0) == all_whitespace(s),
    decreases s.len(),
{
    if s.len() > 0 && spec_is_whitespace(s[0]) {
        lemma_trim_start_empty(s.drop_first());
        if all_whitespace(s.drop_first()) {
            assert forall|i: int| 0 <= i < s.len() implies #[trigger] spec_is_whitespace(s[i]) by {
                if i > 0 {
                    assert(s.drop_first()[i - 1] == s[i]);
                }
            }
        }
        if all_whitespace(s) {
            assert forall|i: int| 0 <= i < s.drop_first().len() implies #[trigger] spec_is_whitespace(s.drop_first()[i]) by {
                assert(s.drop_first()[i] == s[i + 1]);
            }
        }
    } else if s.len() > 0 {
        assert(!spec_is_whitespace(s[0]));
    }
}

/// A text trims to nothing exactly when it is blank.
pub proof fn lemma_blank_trim(s: Seq<char>)
    ensures
        (trim(s).len() == 0) == all_whitespace(s),
{
    lemma_trim_end_blank(s);
    lemma_trim_start_empty(trim_end(s));
    if trim_end(s).len() > 0 {
        lemma_trim_end_last(s);
    }
}

/// What trimming from the end leaves does not end in white space.
pub proof fn lemma_trim_end_last(s: Seq<char>)
    requires
        trim_end(s).len() > 0,
    ensures
        !spec_is_whitespace(trim_end(s).last()),
        !all_whitespace(trim_end(s)),
    decreases s.len(),
{
    if s.len() > 0 && spec_is_whitespace(s.last()) {
        lemma_trim_end_last(s.drop_last());
    } else {
        assert(!spec_is_whitespace(s[s.len() - 1]));
    }
}

/// Splitting at `::` yields at least one piece.
pub proof fn lemma_split_colons_nonempty(s: Seq<char>, cur: Seq<char>)
    ensures
        split_colons_from(s, cur).len() >= 1,
    decreases s.len(),
{
    if s.len() == 0 {
    } else if s.len() >= 2 && s[0] == ':' && s[1] == ':' {
        lemma_split_colons_nonempty(s.skip(2), seq![]);
    } else {
        lemma_split_colons_nonempty(s.drop_first(), cur.push(s[0]));
    }
}

/// No character of `s` is a colon.
pub open spec fn colon_free(s: Seq<char>) -> bool {
    forall|i: int| 0 <= i < s.len() ==> s[i] != ':'
}

/// A colon-free prefix joins the piece being read.
proof fn lemma_split_passes_colon_free(a: Seq<char>, s: Seq<char>, cur: Seq<char>)
    requires
        colon_free(a),
    ensures
        split_colons_from(a + s, cur) == split_colons_from(s, cur + a),
    decreases a.len(),
{
    if a.len() == 0 {
        assert(a + s =~= s);
        assert(cur + a =~= cur);
    } else {
        let t = a + s;
        assert(t[0] == a[0]);
        assert(t.drop_first() =~= a.drop_first() + s);
        lemma_split_passes_colon_free(a.drop_first(), s, cur.push(a[0]));
        assert(cur.push(a[0]) + a.drop_first() =~= cur + a);
    }
}

/// A `::` ends the piece being read.
proof fn lemma_split_at_separator(s: Seq<char>, cur: Seq<char>)
    ensures
        split_colons_from("::"@ + s, cur) == seq![cur] + split_colons_from(s, seq![]),
{
    reveal_strlit("::");
    let t = "::"@ + s;
    assert(t[0] == ':' && t[1] == ':');
    assert(t.skip(2) =~= s);
}

/// A joined sequence of at least two parts starts with the first part.
pub proof fn lemma_join_first(parts: Seq<Seq<char>>, sep: Seq<char>)
    requires
        parts.len() >= 2,
    ensures
        join(parts, sep) == parts[0] + sep + join(parts.drop_first(), sep),
    decreases parts.len(),
{
    if parts.len() == 2 {
        assert(parts.drop_last() =~= seq![parts[0]]);
        assert(parts.drop_first() =~= seq![parts[1]]);
        assert(join(parts, sep) == join(parts.drop_last(), sep) + sep + parts.last());
        assert(join(parts.drop_first(), sep) == parts[1]);
    } else {
        lemma_join_first(parts.drop_last(), sep);
        assert(parts.drop_first().drop_last() =~= parts.drop_last().drop_first());
        assert(parts.drop_first().last() == parts.last());
        let j = join(parts.drop_last().drop_first(), sep);
        assert(join(parts, sep) == join(parts.drop_last(), sep) + sep + parts.last());
        assert(join(parts.drop_last(), sep) == parts[0] + sep + j);
        assert(join(parts.drop_first(), sep) == join(parts.drop_first().drop_last(), sep) + sep + parts.drop_first().last());
        assert(parts[0] + sep + j + sep + parts.last() =~= parts[0] + sep + (j + sep + parts.last()));
    }
}

/// Splitting the `::`-joined colon-free parts at `::` gives the parts back.
pub proof fn lemma_split_join(parts: Seq<Seq<char>>)
    requires
        parts.len() >= 1,
        forall|i: int| 0 <= i < parts.len() ==> colon_free(#[trigger] parts[i]),
    ensures
        split_colons(join(parts, "::"@)) == parts,
    decreases parts.len(),
{
    if parts.len() == 1 {
        lemma_split_passes_colon_free(parts[0], seq![], seq![]);
        assert(parts[0] + Seq::<char>::empty() =~= parts[0]);
        assert(Seq::<char>::empty() + parts[0] =~= parts[0]);
        assert(seq![parts[0]] =~= parts);
    } else {
        let rest = parts.drop_first();
        assert forall|i: int| 0 <= i < rest.len() implies colon_free(#[trigger] rest[i]) by {
            assert(rest[i] == parts[i + 1]);
        }
        lemma_split_join(rest);
        lemma_join_first(parts, "::"@);
        let j = join(rest, "::"@);
        assert(parts[0] + "::"@ + j =~= parts[0] + ("::"@ + j));
        lemma_split_passes_colon_free(parts[0], "::"@ + j, seq![]);
        assert(Seq::<char>::empty() + parts[0] =~= parts[0]);
        lemma_split_at_separator(j, parts[0]);
        assert(seq![parts[0]] + rest =~= parts);
    }
}

/// No character of `s` is a line feed.
pub open spec fn no_line_feed(s: Seq<char>) -> bool {
    forall|i: int| 0 <= i < s.len() ==> s[i] != '\n'
}

/// A text that is empty or starts and ends with a character that is not
/// white space, as trimming leaves it.
pub open spec fn trimmed(s: Seq<char>) -> bool {
    s.len() == 0 || (!spec_is_whitespace(s[0]) && !spec_is_whitespace(s.last()))
}

/// Trimming the end twice trims it once.
pub proof fn lemma_trim_end_idempotent(s: Seq<char>)
    ensures
        trim_end(trim_end(s)) == trim_end(s),
    decreases s.len(),
{
    if s.len() > 0 && spec_is_whitespace(s.last()) {
        lemma_trim_end_idempotent(s.drop_last());
    }
}

/// Trimming the end keeps a text free of line feeds.
pub proof fn lemma_trim_end_no_line_feed(s: Seq<char>)
    requires
        no_line_feed(s),
    ensures
        no_line_feed(trim_end(s)),
    decreases s.len(),
{
    if s.len() > 0 && spec_is_whitespace(s.last()) {
        assert(no_line_feed(s.drop_last())) by {
            assert forall|i: int| 0 <= i < s.drop_last().len() implies s.drop_last()[i] != '\n' by {
                assert(s.drop_last()[i] == s[i]);
            }
        }
        lemma_trim_end_no_line_feed(s.drop_last());
    }
}

/// Trimming the start keeps a text free of line feeds.
pub proof fn lemma_trim_start_no_line_feed(s: Seq<char>)
    requires
        no_line_feed(s),
    ensures
        no_line_feed(trim_start(s)),
    decreases s.len(),
{
    if s.len() > 0 && spec_is_whitespace(s[0]) {
        assert(no_line_feed(s.drop_first())) by {
            assert forall|i: int| 0 <= i < s.drop_first().len() implies s.drop_first()[i] != '\n' by {
                assert(s.drop_first()[i] == s[i + 1]);
            }
        }
        lemma_trim_start_no_line_feed(s.drop_first());
    }
}

/// Removing a leading character keeps a text free of line feeds.
pub proof fn lemma_trim_start_char_no_line_feed(s: Seq<char>, c: char)
    requires
        no_line_feed(s),
    ensures
        no_line_feed(trim_start_char(s, c)),
    decreases s.len(),
{
    if s.len() > 0 && s[0] == c {
        assert(no_line_feed(s.drop_first())) by {
            assert forall|i: int| 0 <= i < s.drop_first().len() implies s.drop_first()[i] != '\n' by {
                assert(s.drop_first()[i] == s[i + 1]);
            }
        }
        lemma_trim_start_char_no_line_feed(s.drop_first(), c);
    }
}

/// Trimming keeps a text free of line feeds.
pub proof fn lemma_trim_no_line_feed(s: Seq<char>)
    requires
        no_line_feed(s),
    ensures
        no_line_feed(trim(s)),
{
    lemma_trim_end_no_line_feed(s);
    lemma_trim_start_no_line_feed(trim_end(s));
}

/// Trimming the start of a text that does not end in white space leaves a
/// text that does not end in white space either.
proof fn lemma_trim_start_keeps_end(s: Seq<char>)
    requires
        s.len() == 0 || !spec_is_whitespace(s.last()),
    ensures
        trimmed(trim_start(s)),
    decreases s.len(),
{
    if s.len() > 0 && spec_is_whitespace(s[0]) {
        lemma_trim_start_keeps_end(s.drop_first());
    }
}

/// Trimming leaves a trimmed text.
pub proof fn lemma_trim_trimmed(s: Seq<char>)
    ensures
        trimmed(trim(s)),
{
    if trim_end(s).len() > 0 {
        lemma_trim_end_last(s);
    }
    lemma_trim_start_keeps_end(trim_end(s));
}

/// A trimmed text after one space trims back to itself.
pub proof fn lemma_trim_after_space(t: Seq<char>)
    requires
        trimmed(t),
    ensures
        trim(seq![' '] + t) == t,
{
    let s = seq![' '] + t;
    assert(spec_is_whitespace(' '));
    if t.len() == 0 {
        assert(s.drop_last() =~= Seq::<char>::empty());
        assert(trim_end(s) == trim_end(s.drop_last()));
    } else {
        assert(s.last() == t.last());
        assert(trim_end(s) == s);
        assert(s.drop_first() =~= t);
        assert(trim_start(s) == trim_start(t));
    }
}

/// Lines do not hold line feeds.
pub proof fn lemma_lines_no_line_feed(s: Seq<char>, cur: Seq<char>)
    requires
        no_line_feed(cur),
    ensures
        forall|i: int| 0 <= i < lines_from(s, cur).len() ==> no_line_feed(#[trigger] lines_from(s, cur)[i]),
    decreases s.len(),
{
    if s.len() == 0 {
        if cur.len() > 0 {
            assert(lines_from(s, cur) == seq![cur]);
            assert(lines_from(s, cur)[0] == cur);
        }
    } else if s[0] == '\n' {
        lemma_lines_no_line_feed(s.drop_first(), seq![]);
        let first = strip_cr(cur);
        assert(no_line_feed(first)) by {
            assert forall|i: int| 0 <= i < first.len() implies first[i] != '\n' by {
                assert(first[i] == cur[i]);
            }
        }
        let rest = lines_from(s.drop_first(), seq![]);
        assert(lines_from(s, cur) == seq![first] + rest);
        assert forall|i: int| 0 <= i < lines_from(s, cur).len() implies no_line_feed(#[trigger] lines_from(s, cur)[i]) by {
            if i > 0 {
                assert(lines_from(s, cur)[i] == rest[i - 1]);
            }
        }
    } else {
        assert(no_line_feed(cur.push(s[0]))) by {
            assert forall|i: int| 0 <= i < cur.push(s[0]).len() implies cur.push(s[0])[i] != '\n' by {
                if i < cur.len() {
                    assert(cur.push(s[0])[i] == cur[i]);
                }
            }
        }
        lemma_lines_no_line_feed(s.drop_first(), cur.push(s[0]));
        assert(lines_from(s, cur) == lines_from(s.drop_first(), cur.push(s[0])));
    }
}

/// Text without line feeds joins the line being read.
pub proof fn lemma_lines_pass(a: Seq<char>, s: Seq<char>, cur: Seq<char>)
    requires
        no_line_feed(a),
    ensures
        lines_from(a + s, cur) == lines_from(s, cur + a),
    decreases a.len(),
{
    if a.len() == 0 {
        assert(a + s =~= s);
        assert(cur + a =~= cur);
    } else {
        let t = a + s;
        assert(t[0] == a[0]);
        assert(t.drop_first() =~= a.drop_first() + s);
        assert(no_line_feed(a.drop_first())) by {
            assert forall|i: int| 0 <= i < a.drop_first().len() implies a.drop_first()[i] != '\n' by {
                assert(a.drop_first()[i] == a[i + 1]);
            }
        }
        lemma_lines_pass(a.drop_first(), s, cur.push(a[0]));
        assert(cur.push(a[0]) + a.drop_first() =~= cur + a);
    }
}

/// A line that ends with a line break is read back as that line.
pub proof fn lemma_lines_line(l: Seq<char>, brk: Seq<char>, s: Seq<char>)
    requires
        brk == "\n"@ || brk == "\r\n"@,
        no_line_feed(l),
        l.len() == 0 || l.last() != '\r',
    ensures
        lines_from(l + brk + s, seq![]) == seq![l] + lines_from(s, seq![]),
{
    reveal_strlit("\n");
    reveal_strlit("\r\n");
    assert(l + brk + s =~= l + (brk + s));
    lemma_lines_pass(l, brk + s, seq![]);
    assert(Seq::<char>::empty() + l =~= l);
    let t = brk + s;
    assert(lines_from(l + brk + s, seq![]) == lines_from(t, l));
    if brk == "\n"@ {
        assert(t[0] == '\n');
        assert(t.drop_first() =~= s);
        assert(strip_cr(l) == l);
        assert(lines_from(t, l) == seq![strip_cr(l)] + lines_from(t.drop_first(), seq![]));
    } else {
        assert(t[0] == '\r');
        assert(t.drop_first() =~= seq!['\n'] + s);
        let u = seq!['\n'] + s;
        assert(u[0] == '\n');
        assert(u.drop_first() =~= s);
        assert(strip_cr(l.push('\r')) =~= l);
        assert(lines_from(t, l) == lines_from(u, l.push('\r')));
        assert(lines_from(u, l.push('\r')) == seq![strip_cr(l.push('\r'))] + lines_from(u.drop_first(), seq![]));
    }
}

/// Lines written out, each followed by a line break, are read back as the
/// same lines.
pub proof fn lemma_lines_join(parts: Seq<Seq<char>>, brk: Seq<char>)
    requires
        brk == "\n"@ || brk == "\r\n"@,
        parts.len() > 0,
        forall|i: int| 0 <= i < parts.len() ==> no_line_feed(#[trigger] parts[i]),
        forall|i: int| 0 <= i < parts.len() ==> (#[trigger] parts[i]).len() == 0 || parts[i].last() != '\r',
    ensures
        lines(join(parts, brk) + brk) == parts,
    decreases parts.len(),
{
    assert(no_line_feed(parts[0]));
    assert(parts[0].len() == 0 || parts[0].last() != '\r');
    if parts.len() == 1 {
        lemma_lines_line(parts[0], brk, seq![]);
        assert(parts[0] + brk + Seq::<char>::empty() =~= parts[0] + brk);
        assert(seq![parts[0]] =~= parts);
    } else {
        let rest = parts.drop_first();
        assert forall|i: int| 0 <= i < rest.len() implies no_line_feed(#[trigger] rest[i]) by {
            assert(rest[i] == parts[i + 1]);
        }
        assert forall|i: int| 0 <= i < rest.len() implies (#[trigger] rest[i]).len() == 0 || rest[i].last() != '\r' by {
            assert(rest[i] == parts[i + 1]);
        }
        lemma_lines_join(rest, brk);
        lemma_join_first(parts, brk);
        let r = join(rest, brk) + brk;
        assert(join(parts, brk) + brk =~= parts[0] + brk + r);
        lemma_lines_line(parts[0], brk, r);
        assert(seq![parts[0]] + rest =~= parts);
    }
}

/// `pat` occurs in `s` starting at position `i`.
pub open spec fn occurs_at(s: Seq<char>, pat: Seq<char>, i: int) -> bool {
    0 <= i && i + pat.len() <= s.len() && s.subrange(i, i + pat.len()) == pat
}

/// The first position where `pat` occurs in `s`, as `str::find` gives it.
pub open spec fn first_occurrence(s: Seq<char>, pat: Seq<char>) -> Option<int> {
    if exists|i: int| occurs_at(s, pat, i) {
        Some(choose|i: int| occurs_at(s, pat, i) && forall|j: int| 0 <= j < i ==> !occurs_at(s, pat, j))
    } else {
        None
    }
}

/// The last position where `pat` occurs in `s`, as `str::rfind` gives it.
pub open spec fn last_occurrence(s: Seq<char>, pat: Seq<char>) -> Option<int> {
    if exists|i: int| occurs_at(s, pat, i) {
        Some(choose|i: int| occurs_at(s, pat, i) && forall|j: int| i < j <= s.len() ==> !occurs_at(s, pat, j))
    } else {
        None
    }
}

/// `s` starts with `pat`.
pub open spec fn starts_with(s: Seq<char>, pat: Seq<char>) -> bool {
    pat.len() <= s.len() && s.take(pat.len() as int) == pat
}

/// The first white-space separated word of `s`, if there is one.
pub open spec fn first_word(s: Seq<char>) -> Option<Seq<char>> {
    if words(s).len() > 0 {
        Some(words(s)[0])
    } else {
        None
    }
}

/// Whether `pat` occurs at position `i` of `s`.
pub fn occurs_at_chars(s: &[char], pat: &[char], i: usize) -> (r: bool)
    ensures
        r == occurs_at(s@, pat@, i as int),
{
    if i > s.len() || pat.len() > s.len() - i {
        return false;
    }
    let piece = copy_range(s, i, i + pat.len());
    chars_eq(piece.as_slice(), pat)
}

/// Whether `s` starts with `pat`.
pub fn starts_with_chars(s: &[char], pat: &[char]) -> (r: bool)
    ensures
        r == starts_with(s@, pat@),
{
    let r = occurs_at_chars(s, pat, 0);
    proof {
        if pat@.len() <= s@.len() {
            assert(s@.subrange(0, pat@.len() as int) == s@.take(pat@.len() as int));
        }
    }
    r
}

/// Finds the first occurrence of `pat` in `s`.
pub fn find_chars(s: &[char], pat: &[char]) -> (r: Option<usize>)
    ensures
        match first_occurrence(s@, pat@) {
            Some(i) => 0 <= i <= s@.len() && r == Some(i as usize),
            None => r is None,
        },
        r matches Some(i) ==> occurs_at(s@, pat@, i as int),
{
    let mut i: usize = 0;
    while i < s.len()
        invariant
            i <= s.len(),
            forall|j: int| 0 <= j < i ==> !occurs_at(s@, pat@, j),
        decreases s.len() - i,
    {
        if occurs_at_chars(s, pat, i) {
            proof {
                let k = choose|k: int| occurs_at(s@, pat@, k) && forall|j: int| 0 <= j < k ==> !occurs_at(s@, pat@, j);
                if k > i {
                    assert(!occurs_at(s@, pat@, i as int));
                }
            }
            return Some(i);
        }
        i = i + 1;
    }
    if occurs_at_chars(s, pat, i) {
        proof {
            let k = choose|k: int| occurs_at(s@, pat@, k) && forall|j: int| 0 <= j < k ==> !occurs_at(s@, pat@, j);
            if k > i {
                assert(!occurs_at(s@, pat@, i as int));
            }
        }
        return Some(i);
    }
    proof {
        assert forall|j: int| !occurs_at(s@, pat@, j) by {
            if 0 <= j < i {
            }
        }
    }
    None
}

/// Finds the last occurrence of `pat` in `s`.
pub fn rfind_chars(s: &[char], pat: &[char]) -> (r: Option<usize>)
    ensures
        match last_occurrence(s@, pat@) {
            Some(i) => 0 <= i <= s@.len() && r == Some(i as usize),
            None => r is None,
        },
        r matches Some(i) ==> occurs_at(s@, pat@, i as int),
{
    if pat.len() > s.len() {
        return None;
    }
    let mut i: usize = s.len() - pat.len();
    while i > 0
        invariant
            i + pat@.len() <= s@.len(),
            forall|j: int| i < j <= s@.len() ==> !occurs_at(s@, pat@, j),
        decreases i,
    {
        if occurs_at_chars(s, pat, i) {
            proof {
                let m = choose|m: int| occurs_at(s@, pat@, m) && forall|j: int| m < j <= s@.len() ==> !occurs_at(s@, pat@, j);
                if m < i {
                    assert(!occurs_at(s@, pat@, i as int));
                }
            }
            return Some(i);
        }
        i = i - 1;
    }
    if occurs_at_chars(s, pat, 0) {
        proof {
            let m = choose|m: int| occurs_at(s@, pat@, m) && forall|j: int| m < j <= s@.len() ==> !occurs_at(s@, pat@, j);
            if m < 0 {
            }
        }
        return Some(0);
    }
    None
}

/// The first white-space separated word of `s`.
pub fn first_word_chars(s: &[char]) -> (r: Option<Vec<char>>)
    ensures
        match first_word(s@) {
            Some(w) => r matches Some(v) && v@ == w,
            None => r is None,
        },
{
    let mut ws = words_chars(s);
    if ws.len() == 0 {
        return None;
    }
    proof {
        assert(ws@.map_values(|w: Vec<char>| w@)[0] == ws@[0]@);
    }
    Some(ws.swap_remove(0))
}

/// What trimming the start leaves is the end of the text.
pub proof fn lemma_trim_start_suffix(s: Seq<char>)
    ensures
        trim_start(s).len() <= s.len(),
        s.skip(s.len() - trim_start(s).len()) == trim_start(s),
    decreases s.len(),
{
    if s.len() > 0 && spec_is_whitespace(s[0]) {
        lemma_trim_start_suffix(s.drop_first());
        assert(s.drop_first().skip(s.drop_first().len() - trim_start(s).len()) =~= s.skip(s.len() - trim_start(s).len()));
    } else {
        assert(s.skip(0) =~= s);
    }
}

/// What removing a leading character leaves is the end of the text.
pub proof fn lemma_trim_start_char_suffix(s: Seq<char>, c: char)
    ensures
        trim_start_char(s, c).len() <= s.len(),
        s.skip(s.len() - trim_start_char(s, c).len()) == trim_start_char(s, c),
    decreases s.len(),
{
    if s.len() > 0 && s[0] == c {
        lemma_trim_start_char_suffix(s.drop_first(), c);
        assert(s.drop_first().skip(s.drop_first().len() - trim_start_char(s, c).len()) =~= s.skip(s.len() - trim_start_char(s, c).len()));
    } else {
        assert(s.skip(0) =~= s);
    }
}

/// No word is longer than the text it comes from.
pub proof fn lemma_words_short(s: Seq<char>, cur: Seq<char>)
    ensures
        forall|i: int| 0 <= i < words_from(s, cur).len() ==> #[trigger] words_from(s, cur)[i].len() <= cur.len() + s.len(),
    decreases s.len(),
{
    if s.len() == 0 {
        if cur.len() > 0 {
            assert(words_from(s, cur) == seq![cur]);
        }
    } else if spec_is_whitespace(s[0]) {
        lemma_words_short(s.drop_first(), seq![]);
        let head: Seq<Seq<char>> = if cur.len() == 0 { seq![] } else { seq![cur] };
        let rest = words_from(s.drop_first(), seq![]);
        assert(words_from(s, cur) == head + rest);
        assert forall|i: int| 0 <= i < words_from(s, cur).len() implies #[trigger] words_from(s, cur)[i].len() <= cur.len() + s.len() by {
            if i < head.len() {
                assert(words_from(s, cur)[i] == cur);
            } else {
                assert(words_from(s, cur)[i] == rest[i - head.len()]);
            }
        }
    } else {
        lemma_words_short(s.drop_first(), cur.push(s[0]));
        assert(words_from(s, cur) == words_from(s.drop_first(), cur.push(s[0])));
    }
}


/// A sequence occurs in itself at its start.
pub proof fn lemma_occurs_whole(s: Seq<char>)
    ensures
        occurs_at(s, s, 0),
{
    assert(s.subrange(0, s.len() as int) =~= s);
}

/// What occurs in `a` occurs at the same place in `a + b`, and what occurs
/// in `b` occurs in `a + b` after `a`.
pub proof fn lemma_occurs_in_concat(a: Seq<char>, b: Seq<char>, x: Seq<char>, k: int)
    ensures
        occurs_at(a, x, k) ==> occurs_at(a + b, x, k),
        occurs_at(b, x, k) ==> occurs_at(a + b, x, a.len() + k),
{
    if occurs_at(a, x, k) {
        assert((a + b).subrange(k, k + x.len()) =~= a.subrange(k, k + x.len()));
    }
    if occurs_at(b, x, k) {
        assert((a + b).subrange(a.len() + k, a.len() + k + x.len()) =~= b.subrange(k, k + x.len()));
    }
}

/// What occurs in a part that occurs in a text occurs in the text.
pub proof fn lemma_occurs_within(big: Seq<char>, mid: Seq<char>, x: Seq<char>, b: int, c: int)
    requires
        occurs_at(big, mid, b),
        occurs_at(mid, x, c),
    ensures
        occurs_at(big, x, b + c),
{
    assert(big.subrange(b + c, b + c + x.len()) =~= mid.subrange(c, c + x.len())) by {
        assert forall|i: int| 0 <= i < x.len() implies #[trigger] big.subrange(b + c, b + c + x.len())[i] == mid.subrange(c, c + x.len())[i] by {
            assert(big.subrange(b, b + mid.len())[c + i] == big[b + c + i]);
            assert(mid[c + i] == big.subrange(b, b + mid.len())[c + i]);
        }
    }
}

/// Where part `i` starts in `join(parts, sep)`.
pub open spec fn join_offset(parts: Seq<Seq<char>>, sep: Seq<char>, i: int) -> int {
    if i == 0 {
        0
    } else {
        (join(parts.take(i), sep).len() + sep.len()) as int
    }
}

/// Each part occurs in the joined text at its offset.
pub proof fn lemma_join_part_at(parts: Seq<Seq<char>>, sep: Seq<char>, i: int)
    requires
        0 <= i < parts.len(),
    ensures
        occurs_at(join(parts, sep), parts[i], join_offset(parts, sep, i)),
    decreases parts.len(),
{
    if parts.len() == 1 {
        lemma_occurs_whole(parts[0]);
    } else {
        let d = parts.drop_last();
        if i == parts.len() - 1 {
            assert(parts.take(i) =~= d);
            lemma_occurs_whole(parts.last());
            lemma_occurs_in_concat(join(d, sep) + sep, parts.last(), parts.last(), 0);
        } else {
            lemma_join_part_at(d, sep, i);
            assert(d.take(i) =~= parts.take(i));
            assert(d[i] == parts[i]);
            lemma_occurs_in_concat(join(d, sep), sep + parts.last(), parts[i], join_offset(d, sep, i));
            assert(join(d, sep) + sep + parts.last() =~= join(d, sep) + (sep + parts.last()));
        }
    }
}

/// A longer prefix of the parts joins to a text no shorter.
proof fn lemma_join_prefix_grows(parts: Seq<Seq<char>>, sep: Seq<char>, i: int, j: int)
    requires
        1 <= i <= j <= parts.len(),
    ensures
        join(parts.take(i), sep).len() <= join(parts.take(j), sep).len(),
    decreases j - i,
{
    if i < j {
        lemma_join_prefix_grows(parts, sep, i, j - 1);
        assert(parts.take(j).drop_last() =~= parts.take(j - 1));
    }
}

/// Later parts start after earlier parts end.
pub proof fn lemma_join_offsets_increase(parts: Seq<Seq<char>>, sep: Seq<char>, i: int, j: int)
    requires
        0 <= i < j < parts.len(),
    ensures
        join_offset(parts, sep, i) + parts[i].len() <= join_offset(parts, sep, j),
{
    assert(parts.take(i + 1).drop_last() =~= parts.take(i));
    assert(parts.take(i + 1).last() == parts[i]);
    if i == 0 {
        assert(parts.take(1) =~= seq![parts[0]]);
    }
    lemma_join_prefix_grows(parts, sep, i + 1, j);
}

} // verus!
