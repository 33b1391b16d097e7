//! The syntax of a single Markfile.
//!
//! A Markfile has three sections separated by `---` lines: imports
//! (`> path` or `> path as alias`), target declarations (`# name`, then
//! dependencies `> name`, description text and `- specification` lines), and
//! public target declarations (`> name`). The parser reads the file line by
//! line, collects every diagnostic, and hands the syntax model out only in
//! build mode and only when no diagnostic is an error.

use vstd::prelude::*;
use crate::model::ModulePath;
use crate::text::{
    all_whitespace, chars_eq, chars_of, contains_double_colon, copy_range, has_double_colon,
    is_blank, is_whitespace, lines, lines_chars, owned, push_chars, push_str, spec_is_whitespace,
    split_colons, split_colons_chars, string_of, texts, trim, trim_chars, trim_end,
    trim_end_chars, trim_start_char, trim_start_char_chars, words, words_chars,
};

verus! {

/// The view of a reference: the raw path segments and the 1-based line.
pub struct RefView {
    pub path: Seq<Seq<char>>,
    pub line: nat,
}

/// The view of an import: the referenced path and the optional alias.
pub struct ImportView {
    pub target: RefView,
    pub alias: Option<Seq<char>>,
}

/// The view of a declared target.
pub struct ParsedTargetView {
    pub name: Seq<char>,
    pub line: nat,
    pub dependencies: Seq<RefView>,
    pub description: Seq<char>,
    pub specifications: Seq<Seq<char>>,
}

/// The view of a public target declaration.
pub struct PublicView {
    pub name: Seq<char>,
    pub line: nat,
}

/// The view of a parsed Markfile.
pub struct ParsedModuleView {
    pub namespace: Seq<Seq<char>>,
    pub includes: Seq<ImportView>,
    pub targets: Seq<ParsedTargetView>,
    pub public_targets: Seq<PublicView>,
}

/// The view of a diagnostic.
pub struct DiagView {
    pub error: bool,
    pub line: nat,
    pub code: Seq<char>,
    pub message: Seq<char>,
}

/// A path as written in the file, not yet resolved against the project.
#[derive(Debug, PartialEq, Eq)]
pub struct TargetPath {
    segments: Vec<String>,
}

impl View for TargetPath {
    type V = Seq<Seq<char>>;

    closed spec fn view(&self) -> Seq<Seq<char>> {
        texts(self.segments@)
    }
}

impl TargetPath {
    /// Creates a path from raw segments.
    pub fn new(segments: Vec<String>) -> (r: Self)
        ensures
            r@ == texts(segments@),
    {
        TargetPath { segments }
    }

    /// The raw segments.
    pub fn segments(&self) -> (r: &[String])
        ensures
            texts(r@) == self@,
    {
        self.segments.as_slice()
    }

    /// Whether the path comes from an empty directive.
    pub fn is_empty(&self) -> (r: bool)
        ensures
            r == (self@.len() == 0),
    {
        self.segments.len() == 0
    }

    /// Copies the path.
    pub fn duplicate(&self) -> (r: Self)
        ensures
            r@ == self@,
    {
        TargetPath { segments: crate::model::copy_strings(&self.segments) }
    }
}

/// An unresolved path with the line it was written on.
#[derive(Debug, PartialEq, Eq)]
pub struct ParsedReference {
    path: TargetPath,
    line: usize,
}

impl View for ParsedReference {
    type V = RefView;

    closed spec fn view(&self) -> RefView {
        RefView { path: self.path@, line: self.line as nat }
    }
}

impl ParsedReference {
    /// Creates a reference at a line.
    fn new(path: TargetPath, line: usize) -> (r: Self)
        ensures
            r@ == (RefView { path: path@, line: line as nat }),
    {
        ParsedReference { path, line }
    }

    /// The unresolved path.
    pub fn path(&self) -> (r: &TargetPath)
        ensures
            r@ == self@.path,
    {
        &self.path
    }

    /// The 1-based line of the reference.
    pub fn line(&self) -> (r: usize)
        ensures
            r == self@.line,
    {
        self.line
    }
}

/// An import from the head of the file.
#[derive(Debug, PartialEq, Eq)]
pub struct ParsedInclude {
    target: ParsedReference,
    alias: Option<String>,
}

/// The view of an optional text.
pub open spec fn opt_text(o: Option<String>) -> Option<Seq<char>> {
    match o {
        Some(s) => Some(s@),
        None => None,
    }
}

impl View for ParsedInclude {
    type V = ImportView;

    closed spec fn view(&self) -> ImportView {
        ImportView { target: self.target@, alias: opt_text(self.alias) }
    }
}

impl ParsedInclude {
    /// The referenced target.
    pub fn target(&self) -> (r: &ParsedReference)
        ensures
            r@ == self@.target,
    {
        &self.target
    }

    /// The alias given with `as`, if any.
    pub fn alias(&self) -> (r: Option<&str>)
        ensures
            match r {
                Some(a) => self@.alias == Some(a@),
                None => self@.alias is None,
            },
    {
        match &self.alias {
            Some(a) => Some(a.as_str()),
            None => None,
        }
    }
}

/// The views of a list of references.
pub open spec fn ref_views(v: Seq<ParsedReference>) -> Seq<RefView> {
    v.map_values(|r: ParsedReference| r@)
}

/// A target as declared in one file.
#[derive(Debug, PartialEq, Eq)]
pub struct ParsedTarget {
    name: String,
    line: usize,
    dependencies: Vec<ParsedReference>,
    description: String,
    specifications: Vec<String>,
}

impl View for ParsedTarget {
    type V = ParsedTargetView;

    closed spec fn view(&self) -> ParsedTargetView {
        ParsedTargetView {
            name: self.name@,
            line: self.line as nat,
            dependencies: ref_views(self.dependencies@),
            description: self.description@,
            specifications: texts(self.specifications@),
        }
    }
}

impl ParsedTarget {
    /// The declared name.
    pub fn name(&self) -> (r: &str)
        ensures
            r@ == self@.name,
    {
        self.name.as_str()
    }

    /// The 1-based line of the declaration.
    pub fn line(&self) -> (r: usize)
        ensures
            r == self@.line,
    {
        self.line
    }

    /// The unresolved dependencies.
    pub fn dependencies(&self) -> (r: &[ParsedReference])
        ensures
            ref_views(r@) == self@.dependencies,
    {
        self.dependencies.as_slice()
    }

    /// The description text.
    pub fn description(&self) -> (r: &str)
        ensures
            r@ == self@.description,
    {
        self.description.as_str()
    }

    /// The raw specification texts.
    pub fn specifications(&self) -> (r: &[String])
        ensures
            texts(r@) == self@.specifications,
    {
        self.specifications.as_slice()
    }
}

/// A public target declaration.
#[derive(Debug, PartialEq, Eq)]
pub struct ParsedPublicTarget {
    name: String,
    line: usize,
}

impl View for ParsedPublicTarget {
    type V = PublicView;

    closed spec fn view(&self) -> PublicView {
        PublicView { name: self.name@, line: self.line as nat }
    }
}

impl ParsedPublicTarget {
    /// The declared name.
    pub fn name(&self) -> (r: &str)
        ensures
            r@ == self@.name,
    {
        self.name.as_str()
    }

    /// The 1-based line of the declaration.
    pub fn line(&self) -> (r: usize)
        ensures
            r == self@.line,
    {
        self.line
    }
}

/// The views of a list of imports.
pub open spec fn import_views(v: Seq<ParsedInclude>) -> Seq<ImportView> {
    v.map_values(|r: ParsedInclude| r@)
}

/// The views of a list of declared targets.
pub open spec fn parsed_target_views(v: Seq<ParsedTarget>) -> Seq<ParsedTargetView> {
    v.map_values(|r: ParsedTarget| r@)
}

/// The views of a list of public declarations.
pub open spec fn public_views(v: Seq<ParsedPublicTarget>) -> Seq<PublicView> {
    v.map_values(|r: ParsedPublicTarget| r@)
}

/// The syntax model of one Markfile.
#[derive(Debug, PartialEq, Eq)]
pub struct ParsedModule {
    namespace: ModulePath,
    includes: Vec<ParsedInclude>,
    targets: Vec<ParsedTarget>,
    public_targets: Vec<ParsedPublicTarget>,
}

impl View for ParsedModule {
    type V = ParsedModuleView;

    closed spec fn view(&self) -> ParsedModuleView {
        ParsedModuleView {
            namespace: self.namespace@,
            includes: import_views(self.includes@),
            targets: parsed_target_views(self.targets@),
            public_targets: public_views(self.public_targets@),
        }
    }
}

impl ParsedModule {
    /// The module path the caller gave the file.
    pub fn namespace(&self) -> (r: &ModulePath)
        ensures
            r@ == self@.namespace,
    {
        &self.namespace
    }

    /// The imports of the file.
    pub fn includes(&self) -> (r: &[ParsedInclude])
        ensures
            import_views(r@) == self@.includes,
    {
        self.includes.as_slice()
    }

    /// The targets declared in the file.
    pub fn targets(&self) -> (r: &[ParsedTarget])
        ensures
            parsed_target_views(r@) == self@.targets,
    {
        self.targets.as_slice()
    }

    /// The public declarations at the end of the file.
    pub fn public_targets(&self) -> (r: &[ParsedPublicTarget])
        ensures
            public_views(r@) == self@.public_targets,
    {
        self.public_targets.as_slice()
    }
}

/// Whether the parser hands the syntax model out.
#[derive(Clone, Copy, Debug, PartialEq, Eq, Structural)]
pub enum ParseMode {
    Build,
    DryRun,
}

/// Whether a diagnostic blocks a build.
#[derive(Clone, Copy, Debug, PartialEq, Eq, Structural)]
pub enum DiagnosticSeverity {
    Warning,
    Error,
}

/// A diagnostic of one file.
#[derive(Debug, PartialEq, Eq)]
pub struct Diagnostic {
    severity: DiagnosticSeverity,
    line: usize,
    code: &'static str,
    message: String,
}

impl View for Diagnostic {
    type V = DiagView;

    closed spec fn view(&self) -> DiagView {
        DiagView {
            error: self.severity == DiagnosticSeverity::Error,
            line: self.line as nat,
            code: self.code@,
            message: self.message@,
        }
    }
}

impl Diagnostic {
    /// Creates a warning, which does not block a build.
    fn warning(line: usize, code: &'static str, message: String) -> (r: Self)
        ensures
            r@ == (DiagView { error: false, line: line as nat, code: code@, message: message@ }),
    {
        Diagnostic { severity: DiagnosticSeverity::Warning, line, code, message }
    }

    /// Creates an error, which blocks a build.
    fn error(line: usize, code: &'static str, message: String) -> (r: Self)
        ensures
            r@ == (DiagView { error: true, line: line as nat, code: code@, message: message@ }),
    {
        Diagnostic { severity: DiagnosticSeverity::Error, line, code, message }
    }

    /// The severity.
    pub fn severity(&self) -> (r: DiagnosticSeverity)
        ensures
            (r == DiagnosticSeverity::Error) == self@.error,
    {
        self.severity
    }

    /// The 1-based line.
    pub fn line(&self) -> (r: usize)
        ensures
            r == self@.line,
    {
        self.line
    }

    /// The stable diagnostic code.
    pub fn code(&self) -> (r: &'static str)
        ensures
            r@ == self@.code,
    {
        self.code
    }

    /// The message for the user.
    pub fn message(&self) -> (r: &str)
        ensures
            r@ == self@.message,
    {
        self.message.as_str()
    }

    /// Copies the diagnostic.
    pub fn duplicate(&self) -> (r: Self)
        ensures
            r@ == self@,
    {
        Diagnostic {
            severity: self.severity,
            line: self.line,
            code: self.code,
            message: self.message.clone(),
        }
    }
}

/// The views of a list of diagnostics.
pub open spec fn diag_views(v: Seq<Diagnostic>) -> Seq<DiagView> {
    v.map_values(|d: Diagnostic| d@)
}

/// Whether some diagnostic is an error.
pub open spec fn has_error(d: Seq<DiagView>) -> bool {
    exists|i: int| 0 <= i < d.len() && (#[trigger] d[i]).error
}


/// The section of the file the scanner is in.
#[derive(Clone, Copy, Debug, PartialEq, Eq, Structural)]
pub enum Section {
    Includes,
    Targets,
    PublicTargets,
}

/// The view of a target whose declaration is still being read.
pub struct PendingView {
    pub target: ParsedTargetView,
    pub in_specs: bool,
}

/// The state of the line scanner.
pub struct ScanState {
    pub namespace: Seq<Seq<char>>,
    pub section: Section,
    pub includes: Seq<ImportView>,
    pub targets: Seq<ParsedTargetView>,
    pub public_targets: Seq<PublicView>,
    pub names: Set<Seq<char>>,
    pub current: Option<PendingView>,
    pub diagnostics: Seq<DiagView>,
}

/// A warning at `line`.
pub open spec fn warn(line: nat, code: Seq<char>, message: Seq<char>) -> DiagView {
    DiagView { error: false, line, code, message }
}

/// An error at `line`.
pub open spec fn err(line: nat, code: Seq<char>, message: Seq<char>) -> DiagView {
    DiagView { error: true, line, code, message }
}

/// The warning for an empty `>` directive.
pub open spec fn empty_directive(line: nat) -> DiagView {
    warn(line, "W001"@, "empty `>` directive"@)
}

/// The value of a `>` directive: the rest of the line after `>`, trimmed,
/// when that rest is empty or starts with white space.
pub open spec fn directive_value(line: Seq<char>) -> Option<Seq<char>> {
    if line.len() > 0 && line[0] == '>' {
        let v = line.drop_first();
        if v.len() == 0 || spec_is_whitespace(v[0]) {
            Some(trim(v))
        } else {
            None
        }
    } else {
        None
    }
}

/// The name in a `#` declaration: the line after its leading `#` signs,
/// trimmed.
pub open spec fn target_name(line: Seq<char>) -> Option<Seq<char>> {
    if line.len() > 0 && line[0] == '#' {
        Some(trim(trim_start_char(line.drop_first(), '#')))
    } else {
        None
    }
}

/// The text of a `-` specification line, with the same white-space rule as
/// directives.
pub open spec fn specification_value(line: Seq<char>) -> Option<Seq<char>> {
    if line.len() > 0 && line[0] == '-' {
        let v = line.drop_first();
        if v.len() == 0 || spec_is_whitespace(v[0]) {
            Some(trim(v))
        } else {
            None
        }
    } else {
        None
    }
}

/// The segments of a written path: the `::`-separated pieces, trimmed.
pub open spec fn path_segments(path: Seq<char>) -> Seq<Seq<char>> {
    split_colons(path).map_values(|p: Seq<char>| trim(p))
}

/// `desc` with `text` appended on a new line, or `text` when `desc` is empty.
pub open spec fn append_line(desc: Seq<char>, text: Seq<char>) -> Seq<char> {
    if desc.len() == 0 {
        text
    } else {
        desc.push('\n') + text
    }
}

/// The state with the pending target, if any, moved to the declared targets.
pub open spec fn finish_current(s: ScanState) -> ScanState {
    match s.current {
        Some(p) => ScanState { targets: s.targets.push(p.target), current: None, ..s },
        None => s,
    }
}

/// The state with one more diagnostic.
pub open spec fn with_diag(s: ScanState, d: DiagView) -> ScanState {
    ScanState { diagnostics: s.diagnostics.push(d), ..s }
}

/// Reading a `---` line: it moves to the next section, and a third one is an
/// error.
pub open spec fn scan_separator(s: ScanState, n: nat) -> ScanState {
    match s.section {
        Section::Includes => ScanState { section: Section::Targets, ..s },
        Section::Targets => ScanState { section: Section::PublicTargets, ..finish_current(s) },
        Section::PublicTargets => with_diag(
            s,
            err(n, "E001"@, "a markfile has at most two section separators"@),
        ),
    }
}

/// Reading a line of the import section.
pub open spec fn scan_include(s: ScanState, n: nat, line: Seq<char>) -> ScanState {
    match directive_value(line) {
        None => with_diag(
            s,
            err(n, "E002"@, "only `> path` directives are allowed before the first `---`"@),
        ),
        Some(value) => if value.len() == 0 {
            ScanState {
                includes: s.includes.push(ImportView { target: RefView { path: seq![], line: n }, alias: None }),
                diagnostics: s.diagnostics.push(empty_directive(n)),
                ..s
            }
        } else {
            let w = words(value);
            if w.len() == 1 {
                ScanState {
                    includes: s.includes.push(ImportView { target: RefView { path: path_segments(w[0]), line: n }, alias: None }),
                    ..s
                }
            } else if w.len() == 3 && w[1] == seq!['a', 's'] && !has_double_colon(w[2]) {
                ScanState {
                    includes: s.includes.push(ImportView { target: RefView { path: path_segments(w[0]), line: n }, alias: Some(w[2]) }),
                    ..s
                }
            } else {
                with_diag(s, err(n, "E012"@, "an include must use `> path` or `> path as alias`"@))
            }
        },
    }
}

/// A pending target that has just been declared.
pub open spec fn new_pending(name: Seq<char>, n: nat) -> PendingView {
    PendingView {
        target: ParsedTargetView {
            name,
            line: n,
            dependencies: seq![],
            description: seq![],
            specifications: seq![],
        },
        in_specs: false,
    }
}

/// Reading a line of the target section.
pub open spec fn scan_target_line(s: ScanState, n: nat, line: Seq<char>) -> ScanState {
    match target_name(line) {
        Some(name) => {
            let s1 = finish_current(s);
            if name.len() == 0 {
                with_diag(s1, err(n, "E003"@, "a target declaration requires a name after `#`"@))
            } else {
                ScanState {
                    names: s1.names.insert(name),
                    diagnostics: if s1.names.contains(name) {
                        s1.diagnostics.push(err(n, "E004"@, "target `"@ + name + "` is declared more than once"@))
                    } else {
                        s1.diagnostics
                    },
                    current: Some(new_pending(name, n)),
                    ..s1
                }
            }
        },
        None => match s.current {
            None => with_diag(s, err(n, "E005"@, "a target declaration must appear before target content"@)),
            Some(p) => match directive_value(line) {
                Some(v) => if v.len() == 0 {
                    ScanState {
                        current: Some(PendingView {
                            target: ParsedTargetView {
                                dependencies: p.target.dependencies.push(RefView { path: seq![], line: n }),
                                ..p.target
                            },
                            ..p
                        }),
                        diagnostics: s.diagnostics.push(empty_directive(n)),
                        ..s
                    }
                } else {
                    ScanState {
                        current: Some(PendingView {
                            target: ParsedTargetView {
                                dependencies: p.target.dependencies.push(RefView { path: path_segments(v), line: n }),
                                ..p.target
                            },
                            ..p
                        }),
                        ..s
                    }
                },
                None => match specification_value(line) {
                    Some(spec) => ScanState {
                        current: Some(PendingView {
                            target: ParsedTargetView {
                                specifications: p.target.specifications.push(spec),
                                ..p.target
                            },
                            in_specs: true,
                        }),
                        ..s
                    },
                    None => if p.in_specs {
                        with_diag(s, err(n, "E006"@, "target descriptions must precede specifications"@))
                    } else {
                        ScanState {
                            current: Some(PendingView {
                                target: ParsedTargetView {
                                    description: append_line(p.target.description, line),
                                    ..p.target
                                },
                                ..p
                            }),
                            ..s
                        }
                    },
                },
            },
        },
    }
}

/// Reading a line of the public section.
pub open spec fn scan_public(s: ScanState, n: nat, line: Seq<char>) -> ScanState {
    match directive_value(line) {
        None => with_diag(
            s,
            err(n, "E007"@, "only `> target-name` directives are allowed after the second `---`"@),
        ),
        Some(name) => if name.len() == 0 {
            with_diag(s, empty_directive(n))
        } else if has_double_colon(name) {
            with_diag(s, err(n, "E008"@, "a public target must be declared by its local name"@))
        } else {
            ScanState { public_targets: s.public_targets.push(PublicView { name, line: n }), ..s }
        },
    }
}

/// Reading line `n` (1-based) of the file: blank lines are skipped, `---`
/// moves between sections, and other lines are read by the current section.
pub open spec fn scan_line(s: ScanState, n: nat, raw: Seq<char>) -> ScanState {
    let line = trim_end(raw);
    if all_whitespace(line) {
        s
    } else if line == seq!['-', '-', '-'] {
        scan_separator(s, n)
    } else {
        match s.section {
            Section::Includes => scan_include(s, n, line),
            Section::Targets => scan_target_line(s, n, line),
            Section::PublicTargets => scan_public(s, n, line),
        }
    }
}

/// The scanner before the first line.
pub open spec fn initial_scan(namespace: Seq<Seq<char>>) -> ScanState {
    ScanState {
        namespace,
        section: Section::Includes,
        includes: seq![],
        targets: seq![],
        public_targets: seq![],
        names: Set::empty(),
        current: None,
        diagnostics: seq![],
    }
}

/// The scanner after the first `k` lines.
pub open spec fn scan_lines(namespace: Seq<Seq<char>>, ls: Seq<Seq<char>>, k: nat) -> ScanState
    decreases k,
{
    if k == 0 {
        initial_scan(namespace)
    } else {
        scan_line(scan_lines(namespace, ls, (k - 1) as nat), k, ls[k - 1])
    }
}

/// Scanning keeps the module path the caller gave.
proof fn lemma_scan_namespace(namespace: Seq<Seq<char>>, ls: Seq<Seq<char>>, k: nat)
    ensures
        scan_lines(namespace, ls, k).namespace == namespace,
    decreases k,
{
    if k > 0 {
        lemma_scan_namespace(namespace, ls, (k - 1) as nat);
    }
}

/// The model of a parsed file keeps the module path the caller gave.
pub proof fn lemma_parse_namespace(mode: ParseMode, namespace: Seq<Seq<char>>, source: Seq<char>)
    ensures
        spec_parse(mode, namespace, source).module.namespace == namespace,
{
    lemma_scan_namespace(namespace, lines(source), lines(source).len());
}

/// An error for each public declaration whose name is not declared.
pub open spec fn undeclared_publics(pubs: Seq<PublicView>, names: Set<Seq<char>>) -> Seq<DiagView>
    decreases pubs.len(),
{
    if pubs.len() == 0 {
        seq![]
    } else {
        let rest = undeclared_publics(pubs.drop_last(), names);
        let p = pubs.last();
        if names.contains(p.name) {
            rest
        } else {
            rest.push(err(p.line, "E011"@, "public target `"@ + p.name + "` is not declared in this module"@))
        }
    }
}

/// The diagnostics that end the file: a missing separator and public
/// declarations of undeclared targets.
pub open spec fn closing_diagnostics(s: ScanState) -> Seq<DiagView> {
    let d = match s.section {
        Section::Includes => s.diagnostics.push(
            err(1, "E009"@, "the include section must end with `---` before target declarations"@),
        ),
        Section::Targets => s.diagnostics.push(
            err(1, "E010"@, "the target section must end with `---` before public target declarations"@),
        ),
        Section::PublicTargets => s.diagnostics,
    };
    d + undeclared_publics(s.public_targets, s.names)
}

/// The view of a parse result.
pub struct ParseResultView {
    pub module: ParsedModuleView,
    pub diagnostics: Seq<DiagView>,
    pub can_build: bool,
}

/// What parsing `source` gives: the scan of all its lines, the closing
/// diagnostics, and a model handed out only in build mode without errors.
pub open spec fn spec_parse(mode: ParseMode, namespace: Seq<Seq<char>>, source: Seq<char>) -> ParseResultView {
    let ls = lines(source);
    let s = finish_current(scan_lines(namespace, ls, ls.len()));
    let d = closing_diagnostics(s);
    ParseResultView {
        module: ParsedModuleView {
            namespace: s.namespace,
            includes: s.includes,
            targets: s.targets,
            public_targets: s.public_targets,
        },
        diagnostics: d,
        can_build: !has_error(d) && mode == ParseMode::Build,
    }
}


/// A target whose declaration is still being read.
struct PendingTarget {
    name: String,
    line: usize,
    dependencies: Vec<ParsedReference>,
    description: String,
    specifications: Vec<String>,
    // Once a specification is read, description text is no longer accepted.
    in_specs: bool,
}

impl View for PendingTarget {
    type V = PendingView;

    closed spec fn view(&self) -> PendingView {
        PendingView {
            target: ParsedTargetView {
                name: self.name@,
                line: self.line as nat,
                dependencies: ref_views(self.dependencies@),
                description: self.description@,
                specifications: texts(self.specifications@),
            },
            in_specs: self.in_specs,
        }
    }
}

impl PendingTarget {
    /// Starts a target in its description part.
    fn new(name: String, line: usize) -> (r: Self)
        ensures
            r@ == new_pending(name@, line as nat),
    {
        let r = PendingTarget {
            name,
            line,
            dependencies: Vec::new(),
            description: String::new(),
            specifications: Vec::new(),
            in_specs: false,
        };
        assert(ref_views(r.dependencies@) =~= seq![]);
        assert(texts(r.specifications@) =~= seq![]);
        r
    }

    /// Appends a line of description in file order.
    fn append_description(&mut self, text: &[char])
        ensures
            final(self)@ == (PendingView {
                target: ParsedTargetView {
                    description: append_line(old(self)@.target.description, text@),
                    ..old(self)@.target
                },
                ..old(self)@
            }),
    {
        if !self.description.as_str().is_empty() {
            self.description.push('\n');
        }
        push_chars(&mut self.description, text);
    }

    /// Turns the pending target into a declared target.
    fn finish(self) -> (r: ParsedTarget)
        ensures
            r@ == self@.target,
    {
        ParsedTarget {
            name: self.name,
            line: self.line,
            dependencies: self.dependencies,
            description: self.description,
            specifications: self.specifications,
        }
    }
}

/// The view of an optional pending target.
spec fn pending_view(p: Option<PendingTarget>) -> Option<PendingView> {
    match p {
        Some(t) => Some(t@),
        None => None,
    }
}

/// The mutable state of one scan of a file.
struct ParseState {
    namespace: ModulePath,
    // Decides how the next line is read.
    section: Section,
    includes: Vec<ParsedInclude>,
    targets: Vec<ParsedTarget>,
    public_targets: Vec<ParsedPublicTarget>,
    target_names: Vec<String>,
    // The target whose content is still being read.
    current_target: Option<PendingTarget>,
    diagnostics: Vec<Diagnostic>,
}

impl View for ParseState {
    type V = ScanState;

    closed spec fn view(&self) -> ScanState {
        ScanState {
            namespace: self.namespace@,
            section: self.section,
            includes: import_views(self.includes@),
            targets: parsed_target_views(self.targets@),
            public_targets: public_views(self.public_targets@),
            names: texts(self.target_names@).to_set(),
            current: pending_view(self.current_target),
            diagnostics: diag_views(self.diagnostics@),
        }
    }
}

/// Tests whether `name` occurs in `v`.
fn contains_text(v: &Vec<String>, name: &[char]) -> (r: bool)
    ensures
        r == texts(v@).to_set().contains(name@),
{
    let mut i: usize = 0;
    while i < v.len()
        invariant
            i <= v.len(),
            forall|j: int| 0 <= j < i ==> #[trigger] v@[j]@ != name@,
        decreases v.len() - i,
    {
        let c = chars_of(v[i].as_str());
        if chars_eq(c.as_slice(), name) {
            assert(texts(v@)[i as int] == name@);
            return true;
        }
        i = i + 1;
    }
    assert(!texts(v@).contains(name@)) by {
        if texts(v@).contains(name@) {
            let k = choose|k: int| 0 <= k < texts(v@).len() && texts(v@)[k] == name@;
            assert(v@[k]@ == name@);
        }
    }
    false
}

/// The value of a `>` directive.
fn directive_value_chars(line: &[char]) -> (r: Option<Vec<char>>)
    ensures
        match r {
            Some(v) => directive_value(line@) == Some(v@),
            None => directive_value(line@) is None,
        },
{
    if line.len() > 0 && line[0] == '>' {
        let v = copy_range(line, 1, line.len());
        assert(v@ == line@.drop_first());
        if v.len() == 0 || is_whitespace(v[0]) {
            Some(trim_chars(v.as_slice()))
        } else {
            None
        }
    } else {
        None
    }
}

/// The name of a `#` declaration.
fn target_name_chars(line: &[char]) -> (r: Option<Vec<char>>)
    ensures
        match r {
            Some(v) => target_name(line@) == Some(v@),
            None => target_name(line@) is None,
        },
{
    if line.len() > 0 && line[0] == '#' {
        let v = copy_range(line, 1, line.len());
        assert(v@ == line@.drop_first());
        let w = trim_start_char_chars(v.as_slice(), '#');
        Some(trim_chars(w.as_slice()))
    } else {
        None
    }
}

/// The text of a `-` specification line.
fn specification_value_chars(line: &[char]) -> (r: Option<Vec<char>>)
    ensures
        match r {
            Some(v) => specification_value(line@) == Some(v@),
            None => specification_value(line@) is None,
        },
{
    if line.len() > 0 && line[0] == '-' {
        let v = copy_range(line, 1, line.len());
        assert(v@ == line@.drop_first());
        if v.len() == 0 || is_whitespace(v[0]) {
            Some(trim_chars(v.as_slice()))
        } else {
            None
        }
    } else {
        None
    }
}

/// The trimmed `::`-separated pieces of a written path.
fn path_segments_chars(path: &[char]) -> (r: Vec<String>)
    ensures
        texts(r@) == path_segments(path@),
{
    let parts = split_colons_chars(path);
    let mut r: Vec<String> = Vec::new();
    let mut i: usize = 0;
    while i < parts.len()
        invariant
            i <= parts.len(),
            r@.len() == i,
            forall|j: int| 0 <= j < i ==> #[trigger] r@[j]@ == trim(parts@[j]@),
        decreases parts.len() - i,
    {
        let c = chars_of(parts[i].as_str());
        let t = trim_chars(c.as_slice());
        r.push(string_of(t.as_slice()));
        i = i + 1;
    }
    assert(texts(r@) =~= path_segments(path@)) by {
        assert(texts(parts@) == split_colons(path@));
        assert forall|j: int| 0 <= j < r@.len() implies texts(r@)[j] == path_segments(path@)[j] by {
            assert(texts(parts@)[j] == parts@[j]@);
        }
    }
    r
}

/// Builds `prefix + middle + suffix`.
fn message3(prefix: &str, middle: &[char], suffix: &str) -> (r: String)
    ensures
        r@ == prefix@ + middle@ + suffix@,
{
    let mut r = owned(prefix);
    push_chars(&mut r, middle);
    push_str(&mut r, suffix);
    r
}

impl ParseState {
    /// A state at the start of the import section.
    fn new(namespace: ModulePath) -> (r: Self)
        ensures
            r@ == initial_scan(namespace@),
    {
        let r = ParseState {
            namespace,
            section: Section::Includes,
            includes: Vec::new(),
            targets: Vec::new(),
            public_targets: Vec::new(),
            target_names: Vec::new(),
            current_target: None,
            diagnostics: Vec::new(),
        };
        assert(import_views(r.includes@) =~= seq![]);
        assert(parsed_target_views(r.targets@) =~= seq![]);
        assert(public_views(r.public_targets@) =~= seq![]);
        assert(texts(r.target_names@).to_set() =~= Set::empty());
        assert(diag_views(r.diagnostics@) =~= seq![]);
        r
    }

    /// Records a diagnostic.
    fn push_diagnostic(&mut self, d: Diagnostic)
        ensures
            final(self)@ == with_diag(old(self)@, d@),
    {
        let ghost old_d = self.diagnostics@;
        self.diagnostics.push(d);
        assert(diag_views(self.diagnostics@) =~= diag_views(old_d).push(d@));
    }

    /// Moves the pending target, if any, to the declared targets.
    fn finish_current_target(&mut self)
        ensures
            final(self)@ == finish_current(old(self)@),
    {
        match self.current_target.take() {
            Some(t) => {
                let ghost old_t = self.targets@;
                let f = t.finish();
                self.targets.push(f);
                assert(parsed_target_views(self.targets@) =~= parsed_target_views(old_t).push(f@));
            },
            None => {},
        }
    }

    /// Reads a `---` line.
    fn consume_separator(&mut self, n: usize)
        ensures
            final(self)@ == scan_separator(old(self)@, n as nat),
    {
        match self.section {
            Section::Includes => {
                self.section = Section::Targets;
            },
            Section::Targets => {
                self.finish_current_target();
                self.section = Section::PublicTargets;
            },
            Section::PublicTargets => {
                self.push_diagnostic(
                    Diagnostic::error(n, "E001", owned("a markfile has at most two section separators")),
                );
            },
        }
    }

    /// Reads a line of the import section.
    fn consume_include(&mut self, n: usize, line: &[char])
        ensures
            final(self)@ == scan_include(old(self)@, n as nat, line@),
    {
        match directive_value_chars(line) {
            None => {
                self.push_diagnostic(
                    Diagnostic::error(
                        n,
                        "E002",
                        owned("only `> path` directives are allowed before the first `---`"),
                    ),
                );
            },
            Some(value) => {
                if value.len() == 0 {
                    let ghost old_i = self.includes@;
                    let imported = ParsedInclude {
                        target: ParsedReference::new(TargetPath::new(Vec::new()), n),
                        alias: None,
                    };
                    assert(imported@.target.path =~= seq![]);
                    self.includes.push(imported);
                    assert(import_views(self.includes@) =~= import_views(old_i).push(imported@));
                    self.push_diagnostic(Diagnostic::warning(n, "W001", owned("empty `>` directive")));
                    return;
                }
                let w = words_chars(value.as_slice());
                let ghost wv = w@.map_values(|x: Vec<char>| x@);
                assert(wv == words(value@));
                if w.len() == 1 {
                    assert(wv[0] == w@[0]@);
                    let path = path_segments_chars(w[0].as_slice());
                    let ghost old_i = self.includes@;
                    let imported = ParsedInclude {
                        target: ParsedReference::new(TargetPath::new(path), n),
                        alias: None,
                    };
                    self.includes.push(imported);
                    assert(import_views(self.includes@) =~= import_views(old_i).push(imported@));
                    return;
                }
                if w.len() == 3 {
                    assert(wv[0] == w@[0]@ && wv[1] == w@[1]@ && wv[2] == w@[2]@);
                    let is_as = w[1].len() == 2 && w[1][0] == 'a' && w[1][1] == 's';
                    assert(is_as == (w@[1]@ == seq!['a', 's'])) by {
                        if w@[1]@ == seq!['a', 's'] {
                            assert(w@[1]@.len() == 2);
                            assert(w@[1]@[0] == 'a');
                        }
                        if is_as {
                            assert(w@[1]@ =~= seq!['a', 's']);
                        }
                    }
                    if is_as && !contains_double_colon(w[2].as_slice()) {
                        let path = path_segments_chars(w[0].as_slice());
                        let alias = string_of(w[2].as_slice());
                        let ghost old_i = self.includes@;
                        let imported = ParsedInclude {
                            target: ParsedReference::new(TargetPath::new(path), n),
                            alias: Some(alias),
                        };
                        self.includes.push(imported);
                        assert(import_views(self.includes@) =~= import_views(old_i).push(imported@));
                        return;
                    }
                }
                self.push_diagnostic(
                    Diagnostic::error(
                        n,
                        "E012",
                        owned("an include must use `> path` or `> path as alias`"),
                    ),
                );
            },
        }
    }

    /// Reads a line of the public section.
    fn consume_public_target(&mut self, n: usize, line: &[char])
        ensures
            final(self)@ == scan_public(old(self)@, n as nat, line@),
    {
        match directive_value_chars(line) {
            None => {
                self.push_diagnostic(
                    Diagnostic::error(
                        n,
                        "E007",
                        owned("only `> target-name` directives are allowed after the second `---`"),
                    ),
                );
            },
            Some(name) => {
                if name.len() == 0 {
                    self.push_diagnostic(Diagnostic::warning(n, "W001", owned("empty `>` directive")));
                } else if contains_double_colon(name.as_slice()) {
                    self.push_diagnostic(
                        Diagnostic::error(
                            n,
                            "E008",
                            owned("a public target must be declared by its local name"),
                        ),
                    );
                } else {
                    let ghost old_p = self.public_targets@;
                    let p = ParsedPublicTarget { name: string_of(name.as_slice()), line: n };
                    self.public_targets.push(p);
                    assert(public_views(self.public_targets@) =~= public_views(old_p).push(p@));
                }
            },
        }
    }

    /// Reads a line of the target section.
    fn consume_target_line(&mut self, n: usize, line: &[char])
        ensures
            final(self)@ == scan_target_line(old(self)@, n as nat, line@),
    {
        match target_name_chars(line) {
            Some(name) => {
                self.finish_current_target();
                if name.len() == 0 {
                    self.push_diagnostic(
                        Diagnostic::error(
                            n,
                            "E003",
                            owned("a target declaration requires a name after `#`"),
                        ),
                    );
                    return;
                }
                let ghost s1 = self@;
                let dup = contains_text(&self.target_names, name.as_slice());
                if !dup {
                    let ghost old_names = self.target_names@;
                    self.target_names.push(string_of(name.as_slice()));
                    assert(texts(self.target_names@) =~= texts(old_names).push(name@));
                    proof {
                        texts(old_names).lemma_push_to_set_commute(name@);
                    }
                } else {
                    assert(s1.names.insert(name@) =~= s1.names);
                    self.push_diagnostic(
                        Diagnostic::error(
                            n,
                            "E004",
                            message3("target `", name.as_slice(), "` is declared more than once"),
                        ),
                    );
                }
                self.current_target = Some(PendingTarget::new(string_of(name.as_slice()), n));
            },
            None => {
                if self.current_target.is_none() {
                    self.push_diagnostic(
                        Diagnostic::error(
                            n,
                            "E005",
                            owned("a target declaration must appear before target content"),
                        ),
                    );
                    return;
                }
                let mut t = self.current_target.take().unwrap();
                match directive_value_chars(line) {
                    Some(v) => {
                        let ghost old_d = t.dependencies@;
                        if v.len() == 0 {
                            let r = ParsedReference::new(TargetPath::new(Vec::new()), n);
                            assert(r@.path =~= seq![]);
                            t.dependencies.push(r);
                            assert(ref_views(t.dependencies@) =~= ref_views(old_d).push(r@));
                            self.current_target = Some(t);
                            self.push_diagnostic(Diagnostic::warning(n, "W001", owned("empty `>` directive")));
                        } else {
                            let path = path_segments_chars(v.as_slice());
                            let r = ParsedReference::new(TargetPath::new(path), n);
                            t.dependencies.push(r);
                            assert(ref_views(t.dependencies@) =~= ref_views(old_d).push(r@));
                            self.current_target = Some(t);
                        }
                    },
                    None => match specification_value_chars(line) {
                        Some(spec) => {
                            let ghost old_s = t.specifications@;
                            t.in_specs = true;
                            t.specifications.push(string_of(spec.as_slice()));
                            assert(texts(t.specifications@) =~= texts(old_s).push(spec@));
                            self.current_target = Some(t);
                        },
                        None => {
                            if t.in_specs {
                                self.current_target = Some(t);
                                self.push_diagnostic(
                                    Diagnostic::error(
                                        n,
                                        "E006",
                                        owned("target descriptions must precede specifications"),
                                    ),
                                );
                            } else {
                                t.append_description(line);
                                self.current_target = Some(t);
                            }
                        },
                    },
                }
            },
        }
    }

    /// Reads line `n` of the file.
    fn consume_line(&mut self, n: usize, raw: &[char])
        ensures
            final(self)@ == scan_line(old(self)@, n as nat, raw@),
    {
        let line = trim_end_chars(raw);
        if is_blank(line.as_slice()) {
            return;
        }
        let is_separator = line.len() == 3 && line[0] == '-' && line[1] == '-' && line[2] == '-';
        assert(is_separator == (line@ == seq!['-', '-', '-'])) by {
            if line@ == seq!['-', '-', '-'] {
                assert(line@.len() == 3 && line@[0] == '-' && line@[1] == '-' && line@[2] == '-');
            }
            if is_separator {
                assert(line@ =~= seq!['-', '-', '-']);
            }
        }
        if is_separator {
            self.consume_separator(n);
            return;
        }
        match self.section {
            Section::Includes => self.consume_include(n, line.as_slice()),
            Section::Targets => self.consume_target_line(n, line.as_slice()),
            Section::PublicTargets => self.consume_public_target(n, line.as_slice()),
        }
    }

    /// Ends the scan: checks the separators and public declarations and
    /// wraps the result according to the mode.
    fn finish(self, mode: ParseMode) -> (r: ParseResult)
        ensures
            ({
                let s = finish_current(self@);
                let d = closing_diagnostics(s);
                r@ == ParseResultView {
                    module: ParsedModuleView {
                        namespace: s.namespace,
                        includes: s.includes,
                        targets: s.targets,
                        public_targets: s.public_targets,
                    },
                    diagnostics: d,
                    can_build: !has_error(d) && mode == ParseMode::Build,
                }
            }),
    {
        let ghost start = self@;
        let mut state = self;
        state.finish_current_target();
        let ghost s = state@;
        match state.section {
            Section::Includes => state.push_diagnostic(
                Diagnostic::error(
                    1,
                    "E009",
                    owned("the include section must end with `---` before target declarations"),
                ),
            ),
            Section::Targets => state.push_diagnostic(
                Diagnostic::error(
                    1,
                    "E010",
                    owned("the target section must end with `---` before public target declarations"),
                ),
            ),
            Section::PublicTargets => {},
        }
        let ghost d = state@.diagnostics;
        assert(d + undeclared_publics(s.public_targets.take(0), s.names) =~= d);
        let mut i: usize = 0;
        while i < state.public_targets.len()
            invariant
                i <= state.public_targets.len(),
                public_views(state.public_targets@) == s.public_targets,
                parsed_target_views(state.targets@) == s.targets,
                import_views(state.includes@) == s.includes,
                state.namespace@ == s.namespace,
                texts(state.target_names@).to_set() == s.names,
                diag_views(state.diagnostics@) == d + undeclared_publics(s.public_targets.take(i as int), s.names),
            decreases state.public_targets.len() - i,
        {
            assert(s.public_targets.take(i + 1).drop_last() =~= s.public_targets.take(i as int));
            assert(s.public_targets.take(i + 1).last() == s.public_targets[i as int]);
            let name = chars_of(state.public_targets[i].name());
            if !contains_text(&state.target_names, name.as_slice()) {
                let line = state.public_targets[i].line();
                let diagnostic = Diagnostic::error(
                    line,
                    "E011",
                    message3("public target `", name.as_slice(), "` is not declared in this module"),
                );
                let ghost old_d = state.diagnostics@;
                state.diagnostics.push(diagnostic);
                assert(diag_views(state.diagnostics@) =~= diag_views(old_d).push(diagnostic@));
            }
            i = i + 1;
        }
        assert(s.public_targets.take(state.public_targets.len() as int) =~= s.public_targets);
        let has_errors = any_error(&state.diagnostics);
        let can_build = !has_errors && mode == ParseMode::Build;
        let module = ParsedModule {
            namespace: state.namespace,
            includes: state.includes,
            targets: state.targets,
            public_targets: state.public_targets,
        };
        let r = ParseResult { module, diagnostics: state.diagnostics, can_build };
        r
    }
}

/// Whether some diagnostic in `v` is an error.
fn any_error(v: &Vec<Diagnostic>) -> (r: bool)
    ensures
        r == has_error(diag_views(v@)),
{
    let mut i: usize = 0;
    while i < v.len()
        invariant
            i <= v.len(),
            forall|j: int| 0 <= j < i ==> !(#[trigger] v@[j]@).error,
        decreases v.len() - i,
    {
        if v[i].severity() == DiagnosticSeverity::Error {
            assert(diag_views(v@)[i as int].error);
            return true;
        }
        i = i + 1;
    }
    assert(!has_error(diag_views(v@))) by {
        if has_error(diag_views(v@)) {
            let k = choose|k: int| 0 <= k < diag_views(v@).len() && (#[trigger] diag_views(v@)[k]).error;
            assert(v@[k]@.error);
        }
    }
    false
}

/// The syntax model of a file with all of its diagnostics.
#[derive(Debug, PartialEq, Eq)]
pub struct ParseResult {
    module: ParsedModule,
    diagnostics: Vec<Diagnostic>,
    // Whether the model may be handed out, as opposed to kept for scanning.
    can_build: bool,
}

impl View for ParseResult {
    type V = ParseResultView;

    closed spec fn view(&self) -> ParseResultView {
        ParseResultView {
            module: self.module@,
            diagnostics: diag_views(self.diagnostics@),
            can_build: self.can_build,
        }
    }
}

impl ParseResult {
    /// The syntax model, in build mode when no diagnostic is an error.
    pub fn module(&self) -> (r: Option<&ParsedModule>)
        ensures
            r is Some == self@.can_build,
            r matches Some(m) ==> m@ == self@.module,
    {
        if self.can_build {
            Some(&self.module)
        } else {
            None
        }
    }

    /// Takes the syntax model, in build mode when no diagnostic is an error.
    pub fn into_module(self) -> (r: Option<ParsedModule>)
        ensures
            r is Some == self@.can_build,
            r matches Some(m) ==> m@ == self@.module,
    {
        if self.can_build {
            Some(self.module)
        } else {
            None
        }
    }

    /// Every diagnostic of the scan, in order.
    pub fn diagnostics(&self) -> (r: &[Diagnostic])
        ensures
            diag_views(r@) == self@.diagnostics,
    {
        self.diagnostics.as_slice()
    }

    /// Whether some diagnostic blocks a build.
    pub fn has_errors(&self) -> (r: bool)
        ensures
            r == has_error(self@.diagnostics),
    {
        any_error(&self.diagnostics)
    }

    /// The model as scanned, whatever the diagnostics, for further analysis.
    pub fn partial_module(&self) -> (r: &ParsedModule)
        ensures
            r@ == self@.module,
    {
        &self.module
    }

    /// Splits the result into the model as scanned and the diagnostics.
    pub fn into_parts(self) -> (r: (ParsedModule, Vec<Diagnostic>))
        ensures
            r.0@ == self@.module,
            diag_views(r.1@) == self@.diagnostics,
    {
        (self.module, self.diagnostics)
    }
}

/// Parses Markfile text in a given mode.
#[derive(Clone, Copy, Debug)]
pub struct Parser {
    mode: ParseMode,
}

impl Parser {
    /// Creates a parser.
    pub fn new(mode: ParseMode) -> (r: Self)
        ensures
            r.mode() == mode,
    {
        Parser { mode }
    }

    /// The mode of the parser.
    pub closed spec fn mode(&self) -> ParseMode {
        self.mode
    }

    /// Scans the whole text and returns the model and the diagnostics.
    pub fn parse(&self, namespace: ModulePath, source: &str) -> (r: ParseResult)
        ensures
            r@ == spec_parse(self.mode(), namespace@, source@),
    {
        let ghost ns = namespace@;
        let mut state = ParseState::new(namespace);
        let chars = chars_of(source);
        let ls = lines_chars(chars.as_slice());
        let ghost lv = lines(source@);
        assert(ls@.map_values(|w: Vec<char>| w@) == lv);
        let mut i: usize = 0;
        while i < ls.len()
            invariant
                i <= ls.len(),
                ls@.map_values(|w: Vec<char>| w@) == lv,
                state@ == scan_lines(ns, lv, i as nat),
            decreases ls.len() - i,
        {
            assert(ls@[i as int]@ == lv[i as int]);
            state.consume_line(i + 1, ls[i].as_slice());
            i = i + 1;
        }
        state.finish(self.mode)
    }
}

/// The parse mode decides only whether the model is handed out: both modes
/// scan the same model and report the same diagnostics, a dry run never
/// hands the model out, and a build hands it out exactly when no
/// diagnostic is an error.
pub proof fn lemma_parse_modes_agree(namespace: Seq<Seq<char>>, source: Seq<char>)
    ensures
        spec_parse(ParseMode::DryRun, namespace, source).module == spec_parse(ParseMode::Build, namespace, source).module,
        spec_parse(ParseMode::DryRun, namespace, source).diagnostics == spec_parse(ParseMode::Build, namespace, source).diagnostics,
        !spec_parse(ParseMode::DryRun, namespace, source).can_build,
        spec_parse(ParseMode::Build, namespace, source).can_build == !has_error(spec_parse(ParseMode::Build, namespace, source).diagnostics),
{
}


/// The description after the lines `lines` were appended one at a time.
pub open spec fn described(lines: Seq<Seq<char>>) -> Seq<char>
    decreases lines.len(),
{
    if lines.len() == 0 {
        seq![]
    } else {
        append_line(described(lines.drop_last()), lines.last())
    }
}

/// Appending non-empty description lines one at a time keeps them all, in
/// order, separated by line breaks: the description is the lines joined
/// with `\n`.
pub proof fn lemma_description_joins_lines(lines: Seq<Seq<char>>)
    requires
        forall|i: int| 0 <= i < lines.len() ==> (#[trigger] lines[i]).len() > 0,
    ensures
        described(lines) == crate::text::join(lines, "\n"@),
        lines.len() > 0 ==> described(lines).len() > 0,
    decreases lines.len(),
{
    reveal_strlit("\n");
    if lines.len() > 0 {
        let d = lines.drop_last();
        assert forall|i: int| 0 <= i < d.len() implies (#[trigger] d[i]).len() > 0 by {
            assert(d[i] == lines[i]);
        }
        lemma_description_joins_lines(d);
        assert(lines.last() == lines[lines.len() - 1]);
        if lines.len() > 1 {
            assert(described(d).push('\n') + lines.last() =~= crate::text::join(d, "\n"@) + "\n"@ + lines.last());
        }
    }
}


/// Reading a description line of a pending target appends it to the
/// target's description: the earlier description stays as it was at the
/// start, followed by a line break when it was not empty, and the line ends
/// the new description.
pub proof fn lemma_description_line_appended(s: ScanState, n: nat, line: Seq<char>)
    requires
        target_name(line) is None,
        s.current is Some,
        directive_value(line) is None,
        specification_value(line) is None,
        !s.current->0.in_specs,
    ensures
        ({
            let d0 = s.current->0.target.description;
            let after = scan_target_line(s, n, line);
            &&& after.current is Some
            &&& after.current->0.target.description.len() == d0.len() + line.len() + (if d0.len() > 0 { 1int } else { 0int })
            &&& after.current->0.target.description.take(d0.len() as int) == d0
            &&& d0.len() > 0 ==> after.current->0.target.description[d0.len() as int] == '\n'
            &&& after.current->0.target.description.skip(after.current->0.target.description.len() - line.len()) == line
        }),
{
    let d0 = s.current->0.target.description;
    let d1 = scan_target_line(s, n, line).current->0.target.description;
    if d0.len() > 0 {
        assert(d1 == d0.push('\n') + line);
        assert(d1.take(d0.len() as int) =~= d0);
        assert(d1.skip(d1.len() - line.len()) =~= line);
    } else {
        assert(d1 == line);
        assert(d1.take(0) =~= d0);
        assert(d1.skip(0) =~= line);
    }
}

} // verus!
