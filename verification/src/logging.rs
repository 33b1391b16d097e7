//! Cargo-style single-line progress and diagnostic logs.
//!
//! Each log line is a status label right-aligned to twelve columns, then the
//! message on one line. With colour, only the label is coloured.

use vstd::prelude::*;
use crate::model::{id_text, ModulePath, TargetId};
use crate::parser::DiagnosticSeverity;
use crate::project::AnalysisDiagnostic;
use crate::text::{decimal, is_control, join, owned, push_decimal, push_str, spec_is_control, trim_end};

verus! {

/// Whether log labels are coloured.
#[derive(Clone, Copy, Debug, PartialEq, Eq, Structural)]
pub enum ColorChoice {
    Auto,
    Always,
    Never,
}

impl Default for ColorChoice {
    fn default() -> (r: Self)
        ensures
            r == ColorChoice::Auto,
    {
        ColorChoice::Auto
    }
}

impl ColorChoice {
    /// Whether to colour: always, never, or when writing to a terminal.
    pub fn enabled(self, is_terminal: bool) -> (r: bool)
        ensures
            r == match self {
                ColorChoice::Auto => is_terminal,
                ColorChoice::Always => true,
                ColorChoice::Never => false,
            },
    {
        match self {
            ColorChoice::Auto => is_terminal,
            ColorChoice::Always => true,
            ColorChoice::Never => false,
        }
    }
}

/// `n` spaces.
pub open spec fn spaces(n: nat) -> Seq<char>
    decreases n,
{
    if n == 0 {
        seq![]
    } else {
        spaces((n - 1) as nat).push(' ')
    }
}

/// `label` right-aligned in twelve columns.
pub open spec fn padded(label: Seq<char>) -> Seq<char> {
    if label.len() < 12 {
        spaces((12 - label.len()) as nat) + label
    } else {
        label
    }
}

/// A message on one line: control characters become spaces and trailing
/// white space is removed.
pub open spec fn single_line_text(message: Seq<char>) -> Seq<char> {
    trim_end(message.map_values(|c: char| if spec_is_control(c) { ' ' } else { c }))
}

/// One log line.
pub open spec fn status_line(color: bool, label: Seq<char>, message: Seq<char>, style: Seq<char>) -> Seq<char> {
    if color {
        style + padded(label) + "\u{1b}[0m "@ + single_line_text(message) + "\n"@
    } else {
        padded(label) + " "@ + single_line_text(message) + "\n"@
    }
}

/// The text of a diagnostic: its file, the line if there is one, the code
/// and the message.
pub open spec fn diagnostic_text(d: crate::project::AnalysisDiagView) -> Seq<char> {
    let location = match d.line {
        Some(n) => d.file + ":"@ + decimal(n),
        None => d.file,
    };
    location + " ["@ + d.code + "] "@ + d.message
}

/// The log name of a module.
pub open spec fn module_name(module: Seq<Seq<char>>) -> Seq<char> {
    if module.len() == 0 {
        "<root>"@
    } else {
        join(module, "::"@)
    }
}

/// A message on one line: control characters become spaces and trailing
/// white space is removed.
pub fn single_line(message: &str) -> (r: String)
    ensures
        r@ == single_line_text(message@),
{
    let chars = crate::text::chars_of(message);
    let mut mapped: Vec<char> = Vec::new();
    let mut i: usize = 0;
    while i < chars.len()
        invariant
            i <= chars.len(),
            chars@ == message@,
            mapped@ == message@.take(i as int).map_values(|c: char| if spec_is_control(c) { ' ' } else { c }),
        decreases chars.len() - i,
    {
        let c = chars[i];
        mapped.push(if is_control(c) { ' ' } else { c });
        assert(message@.take(i + 1) =~= message@.take(i as int).push(c));
        assert(mapped@ =~= message@.take(i + 1).map_values(|c: char| if spec_is_control(c) { ' ' } else { c }));
        i = i + 1;
    }
    assert(message@.take(chars.len() as int) =~= message@);
    let trimmed = crate::text::trim_end_chars(mapped.as_slice());
    crate::text::string_of(trimmed.as_slice())
}

/// Writes progress and diagnostics as Cargo-style lines into a buffer that
/// the caller empties into its output.
pub struct Logger {
    output: String,
    color: bool,
}

impl Logger {
    /// The colour setting.
    pub closed spec fn color(&self) -> bool {
        self.color
    }

    /// The lines written and not yet taken.
    pub closed spec fn written(&self) -> Seq<char> {
        self.output@
    }

    /// A logger with nothing written, colouring labels or not.
    pub fn new(color: bool) -> (r: Self)
        ensures
            r.color() == color,
            r.written() == Seq::<char>::empty(),
    {
        Logger { output: String::new(), color }
    }

    /// The lines written and not yet taken.
    pub fn output(&self) -> (r: &str)
        ensures
            r@ == self.written(),
    {
        self.output.as_str()
    }

    /// Takes the lines written so far.
    pub fn take_output(&mut self) -> (r: String)
        ensures
            r@ == old(self).written(),
            final(self).written() == Seq::<char>::empty(),
            final(self).color() == old(self).color(),
    {
        let r = self.output.clone();
        self.output = String::new();
        r
    }

    /// Writes one line: the label right-aligned, coloured with `style` when
    /// colour is on, then the message on one line.
    #[verifier::loop_isolation(false)]
    fn status(&mut self, label: &str, message: &str, style: &str)
        ensures
            final(self).written() == old(self).written() + status_line(old(self).color(), label@, message@, style@),
            final(self).color() == old(self).color(),
    {
        let ghost start = self.output@;
        let color = self.color;
        if color {
            push_str(&mut self.output, style);
        }
        let ghost s1 = self.output@;
        let n = crate::text::chars_of(label).len();
        assert(n == label@.len());
        if n < 12 {
            let mut k: usize = 0;
            assert(s1 + spaces(0) =~= s1);
            while k < 12 - n
                invariant
                    k <= 12 - n,
                    self.output@ == s1 + spaces(k as nat),
                    self.color == color,
                decreases 12 - n - k,
            {
                let ghost before = self.output@;
                self.output.push(' ');
                assert(self.output@ =~= s1 + spaces((k + 1) as nat));
                k = k + 1;
            }
        }
        let ghost s2 = self.output@;
        assert(s2 + label@ =~= s1 + padded(label@));
        push_str(&mut self.output, label);
        if color {
            push_str(&mut self.output, "\u{1b}[0m ");
        } else {
            push_str(&mut self.output, " ");
        }
        let line = single_line(message);
        push_str(&mut self.output, line.as_str());
        push_str(&mut self.output, "\n");
        assert(self.output@ =~= start + status_line(color, label@, message@, style@));
    }

    /// Logs the module being parsed.
    pub fn parsing(&mut self, module: &ModulePath)
        ensures
            final(self).written() == old(self).written() + status_line(old(self).color(), "Parsing"@, module_name(module@), "\u{1b}[36m"@),
            final(self).color() == old(self).color(),
    {
        let name = if module.is_root() { owned("<root>") } else { module.to_string() };
        self.status("Parsing", name.as_str(), "\u{1b}[36m");
    }

    /// Logs the target being compiled.
    pub fn compiling(&mut self, target: &TargetId)
        ensures
            final(self).written() == old(self).written() + status_line(old(self).color(), "Compiling"@, id_text(target@), "\u{1b}[36m"@),
            final(self).color() == old(self).color(),
    {
        let name = target.to_string();
        self.status("Compiling", name.as_str(), "\u{1b}[36m");
    }

    /// Logs a diagnostic as an error or a warning line.
    pub fn diagnostic(&mut self, diagnostic: &AnalysisDiagnostic)
        ensures
            final(self).written() == old(self).written() + if diagnostic@.error {
                status_line(old(self).color(), "Error"@, diagnostic_text(diagnostic@), "\u{1b}[31m"@)
            } else {
                status_line(old(self).color(), "Warning"@, diagnostic_text(diagnostic@), "\u{1b}[33m"@)
            },
            final(self).color() == old(self).color(),
    {
        let mut message = owned(diagnostic.file());
        match diagnostic.line() {
            Some(line) => {
                push_str(&mut message, ":");
                push_decimal(&mut message, line);
            },
            None => {},
        }
        push_str(&mut message, " [");
        push_str(&mut message, diagnostic.code());
        push_str(&mut message, "] ");
        push_str(&mut message, diagnostic.message());
        assert(message@ == diagnostic_text(diagnostic@));
        match diagnostic.severity() {
            DiagnosticSeverity::Error => self.error(message.as_str()),
            DiagnosticSeverity::Warning => self.warning(message.as_str()),
        }
    }

    /// Logs an error line.
    pub fn error(&mut self, message: &str)
        ensures
            final(self).written() == old(self).written() + status_line(old(self).color(), "Error"@, message@, "\u{1b}[31m"@),
            final(self).color() == old(self).color(),
    {
        self.status("Error", message, "\u{1b}[31m");
    }

    /// Logs a warning line.
    pub fn warning(&mut self, message: &str)
        ensures
            final(self).written() == old(self).written() + status_line(old(self).color(), "Warning"@, message@, "\u{1b}[33m"@),
            final(self).color() == old(self).color(),
    {
        self.status("Warning", message, "\u{1b}[33m");
    }

    /// Logs the end of a check or build with its duration, given as the
    /// number of seconds with two decimals.
    pub fn finished(&mut self, message: &str, seconds: &str)
        ensures
            final(self).written() == old(self).written() + status_line(
                old(self).color(),
                "Finished"@,
                message@ + " in "@ + seconds@ + "s"@,
                "\u{1b}[1;36m"@,
            ),
            final(self).color() == old(self).color(),
    {
        let mut text = owned(message);
        push_str(&mut text, " in ");
        push_str(&mut text, seconds);
        push_str(&mut text, "s");
        self.status("Finished", text.as_str(), "\u{1b}[1;36m");
    }
}

/// Trimming from the end keeps a prefix.
proof fn lemma_trim_end_prefix(s: Seq<char>)
    ensures
        trim_end(s).len() <= s.len(),
        trim_end(s) == s.take(trim_end(s).len() as int),
    decreases s.len(),
{
    if s.len() > 0 && crate::text::spec_is_whitespace(s.last()) {
        lemma_trim_end_prefix(s.drop_last());
        assert(s.drop_last().take(trim_end(s).len() as int) =~= s.take(trim_end(s).len() as int));
    } else {
        assert(s.take(s.len() as int) =~= s);
    }
}

/// A logged message holds no control character, so no line break: every
/// log entry stays on one line.
pub proof fn lemma_single_line_has_no_controls(message: Seq<char>)
    ensures
        forall|i: int| 0 <= i < single_line_text(message).len() ==> !spec_is_control(#[trigger] single_line_text(message)[i]),
{
    let mapped = message.map_values(|c: char| if spec_is_control(c) { ' ' } else { c });
    lemma_trim_end_prefix(mapped);
    assert forall|i: int| 0 <= i < single_line_text(message).len() implies !spec_is_control(#[trigger] single_line_text(message)[i]) by {
        assert(single_line_text(message)[i] == mapped[i]);
    }
}

} // verus!
