//! Analysis of a project: which modules are loaded, how imports and
//! dependencies resolve, and which diagnostics block a build.
//!
//! Reading files is left to the caller. An [`AnalysisState`] says which
//! module file to read next; the caller reads it and hands the text back, and
//! once no module is pending, [`AnalysisState::resolve`] builds the project.

use vstd::prelude::*;
use crate::model::{
    id_text, module_at, project_target, project_wf, IdView, Module, ModulePath, ModuleView, Project,
    ProjectView, Spec, Target, TargetId,
};
use crate::parser::{
    has_error, spec_parse, DiagView, Diagnostic, DiagnosticSeverity, ParseMode, ParsedModule,
    ParsedModuleView, ParsedReference, Parser,
};
use crate::text::{chars_of, copy_range, join, owned, push_str, string_of, texts};

verus! {

/// Whether an analysis hands the project out.
#[derive(Clone, Copy, Debug, PartialEq, Eq, Structural)]
pub enum AnalysisMode {
    Build,
    DryRun,
}

/// The view of a project diagnostic.
pub struct AnalysisDiagView {
    pub error: bool,
    pub file: Seq<char>,
    pub line: Option<nat>,
    pub code: Seq<char>,
    pub message: Seq<char>,
}

/// A diagnostic tied to a Markfile.
#[derive(Debug, PartialEq, Eq)]
pub struct AnalysisDiagnostic {
    severity: DiagnosticSeverity,
    file: String,
    line: Option<usize>,
    code: &'static str,
    message: String,
}

/// The view of an optional line number.
pub open spec fn line_view(line: Option<usize>) -> Option<nat> {
    match line {
        Some(n) => Some(n as nat),
        None => None,
    }
}

impl View for AnalysisDiagnostic {
    type V = AnalysisDiagView;

    closed spec fn view(&self) -> AnalysisDiagView {
        AnalysisDiagView {
            error: self.severity == DiagnosticSeverity::Error,
            file: self.file@,
            line: line_view(self.line),
            code: self.code@,
            message: self.message@,
        }
    }
}

/// An error diagnostic of a file.
pub open spec fn file_error(file: Seq<char>, line: Option<nat>, code: Seq<char>, message: Seq<char>) -> AnalysisDiagView {
    AnalysisDiagView { error: true, file, line, code, message }
}

/// A file diagnostic made from a diagnostic of the parser.
pub open spec fn tagged(file: Seq<char>, d: DiagView) -> AnalysisDiagView {
    AnalysisDiagView { error: d.error, file, line: Some(d.line), code: d.code, message: d.message }
}

impl AnalysisDiagnostic {
    /// The same diagnostic, placed at a line of another file.
    pub fn at(&self, file: &str, line: usize) -> (r: Self)
        ensures
            r@ == (AnalysisDiagView { file: file@, line: Some(line as nat), ..self@ }),
    {
        AnalysisDiagnostic {
            severity: self.severity,
            file: owned(file),
            line: Some(line),
            code: self.code,
            message: self.message.clone(),
        }
    }

    /// Ties a diagnostic of the parser to its file.
    pub fn from_parse(file: &str, diagnostic: &Diagnostic) -> (r: Self)
        ensures
            r@ == tagged(file@, diagnostic@),
    {
        AnalysisDiagnostic {
            severity: diagnostic.severity(),
            file: owned(file),
            line: Some(diagnostic.line()),
            code: diagnostic.code(),
            message: owned(diagnostic.message()),
        }
    }

    /// A warning about a file, which does not block a build.
    pub fn warning(file: &str, line: usize, code: &'static str, message: String) -> (r: Self)
        ensures
            r@ == (AnalysisDiagView { error: false, file: file@, line: Some(line as nat), code: code@, message: message@ }),
    {
        AnalysisDiagnostic { severity: DiagnosticSeverity::Warning, file: owned(file), line: Some(line), code, message }
    }

    /// An error about a file, which blocks a build.
    pub fn error(file: &str, line: Option<usize>, code: &'static str, message: String) -> (r: Self)
        ensures
            r@ == file_error(file@, line_view(line), code@, message@),
    {
        AnalysisDiagnostic { severity: DiagnosticSeverity::Error, file: owned(file), line, code, message }
    }

    /// The severity.
    pub fn severity(&self) -> (r: DiagnosticSeverity)
        ensures
            (r == DiagnosticSeverity::Error) == self@.error,
    {
        self.severity
    }

    /// The Markfile the diagnostic is about.
    pub fn file(&self) -> (r: &str)
        ensures
            r@ == self@.file,
    {
        self.file.as_str()
    }

    /// The 1-based line, where there is one.
    pub fn line(&self) -> (r: Option<usize>)
        ensures
            line_view(r) == self@.line,
    {
        self.line
    }

    /// The stable diagnostic code.
    pub fn code(&self) -> (r: &str)
        ensures
            r@ == self@.code,
    {
        self.code
    }

    /// The message for the user.
    pub fn message(&self) -> (r: &str)
        ensures
            r@ == self@.message,
    {
        self.message.as_str()
    }

    /// Copies the diagnostic.
    pub fn duplicate(&self) -> (r: Self)
        ensures
            r@ == self@,
    {
        AnalysisDiagnostic {
            severity: self.severity,
            file: self.file.clone(),
            line: self.line,
            code: self.code,
            message: self.message.clone(),
        }
    }
}

/// The views of a list of project diagnostics.
pub open spec fn analysis_views(v: Seq<AnalysisDiagnostic>) -> Seq<AnalysisDiagView> {
    v.map_values(|d: AnalysisDiagnostic| d@)
}

/// Whether some project diagnostic is an error.
pub open spec fn any_error(d: Seq<AnalysisDiagView>) -> bool {
    exists|i: int| 0 <= i < d.len() && (#[trigger] d[i]).error
}

/// Whether some diagnostic in `v` is an error.
pub fn diagnostics_have_errors(v: &[AnalysisDiagnostic]) -> (r: bool)
    ensures
        r == any_error(analysis_views(v@)),
{
    let mut i: usize = 0;
    while i < v.len()
        invariant
            i <= v.len(),
            forall|j: int| 0 <= j < i ==> !(#[trigger] v@[j]@).error,
        decreases v.len() - i,
    {
        if v[i].severity() == DiagnosticSeverity::Error {
            assert(analysis_views(v@)[i as int].error);
            return true;
        }
        i = i + 1;
    }
    assert(!any_error(analysis_views(v@))) by {
        if any_error(analysis_views(v@)) {
            let k = choose|k: int| 0 <= k < analysis_views(v@).len() && (#[trigger] analysis_views(v@)[k]).error;
            assert(v@[k]@.error);
        }
    }
    false
}

/// The view of an analysis result.
pub struct AnalysisResultView {
    pub project: Option<ProjectView>,
    pub diagnostics: Seq<AnalysisDiagView>,
}

/// The project, where the analysis hands one out, and all diagnostics.
#[derive(Debug, PartialEq, Eq)]
pub struct AnalysisResult {
    project: Option<Project>,
    diagnostics: Vec<AnalysisDiagnostic>,
}

impl View for AnalysisResult {
    type V = AnalysisResultView;

    closed spec fn view(&self) -> AnalysisResultView {
        AnalysisResultView {
            project: match self.project {
                Some(p) => Some(p@),
                None => None,
            },
            diagnostics: analysis_views(self.diagnostics@),
        }
    }
}

impl AnalysisResult {
    /// The project, in build mode when no diagnostic is an error.
    pub fn project(&self) -> (r: Option<&Project>)
        ensures
            r is Some == self@.project is Some,
            r matches Some(p) ==> self@.project == Some(p@),
    {
        match &self.project {
            Some(p) => Some(p),
            None => None,
        }
    }

    /// Takes the project, in build mode when no diagnostic is an error.
    pub fn into_project(self) -> (r: Option<Project>)
        ensures
            r is Some == self@.project is Some,
            r matches Some(p) ==> self@.project == Some(p@),
    {
        self.project
    }

    /// Every diagnostic of the analysis, in order.
    pub fn diagnostics(&self) -> (r: &[AnalysisDiagnostic])
        ensures
            analysis_views(r@) == self@.diagnostics,
    {
        self.diagnostics.as_slice()
    }

    /// Whether some diagnostic blocks a build.
    pub fn has_errors(&self) -> (r: bool)
        ensures
            r == any_error(self@.diagnostics),
    {
        diagnostics_have_errors(self.diagnostics.as_slice())
    }
}

/// The directory part of a `/`-separated file path: the text before the last
/// `/`, without trailing separators (`/` itself for a file at the top), and
/// empty for a bare file name.
pub open spec fn parent_dir(path: Seq<char>) -> Seq<char>
    decreases path.len(),
{
    if path.len() == 0 {
        seq![]
    } else if path.last() == '/' {
        trim_separators(path.drop_last())
    } else {
        parent_dir(path.drop_last())
    }
}

/// `path` without trailing `/`, except that a path made of separators only
/// becomes `/`.
pub open spec fn trim_separators(path: Seq<char>) -> Seq<char>
    decreases path.len(),
{
    if path.len() == 0 {
        seq!['/']
    } else if path.last() == '/' {
        trim_separators(path.drop_last())
    } else {
        path
    }
}

/// `base` extended by one path component.
pub open spec fn join_component(base: Seq<char>, component: Seq<char>) -> Seq<char> {
    if base.len() == 0 {
        component
    } else if base.last() == '/' {
        base + component
    } else {
        base + seq!['/'] + component
    }
}

/// `base` extended by several components, in order.
pub open spec fn join_components(base: Seq<char>, components: Seq<Seq<char>>) -> Seq<char>
    decreases components.len(),
{
    if components.len() == 0 {
        base
    } else {
        join_component(join_components(base, components.drop_last()), components.last())
    }
}

/// The Markfile of a module: the root file for the root module, otherwise
/// the directories of the path below the root file's directory and a file
/// named after the last segment with the `.mf` extension.
pub open spec fn module_file_path(root_file: Seq<char>, namespace: Seq<Seq<char>>) -> Seq<char> {
    if namespace.len() == 0 {
        root_file
    } else {
        join_component(
            join_components(parent_dir(root_file), namespace.drop_last()),
            namespace.last() + ".mf"@,
        )
    }
}

/// Where a project lives and whether its analysis hands the project out.
#[derive(Debug)]
pub struct ProjectAnalyzer {
    root_file: String,
    mode: AnalysisMode,
}

impl ProjectAnalyzer {
    /// An analyzer for the project whose root Markfile is `root_file`.
    pub fn new(root_file: &str, mode: AnalysisMode) -> (r: Self)
        ensures
            r.root_file_view() == root_file@,
            r.mode_view() == mode,
    {
        ProjectAnalyzer { root_file: owned(root_file), mode }
    }

    /// The root Markfile.
    pub closed spec fn root_file_view(&self) -> Seq<char> {
        self.root_file@
    }

    /// The analysis mode.
    pub closed spec fn mode_view(&self) -> AnalysisMode {
        self.mode
    }

    /// The root Markfile.
    pub fn root_file(&self) -> (r: &str)
        ensures
            r@ == self.root_file_view(),
    {
        self.root_file.as_str()
    }

    /// The analysis mode.
    pub fn mode(&self) -> (r: AnalysisMode)
        ensures
            r == self.mode_view(),
    {
        self.mode
    }

    /// Copies the analyzer.
    pub fn duplicate(&self) -> (r: Self)
        ensures
            r.root_file_view() == self.root_file_view(),
            r.mode_view() == self.mode_view(),
    {
        ProjectAnalyzer { root_file: self.root_file.clone(), mode: self.mode }
    }

    /// The Markfile of a module.
    pub fn module_file(&self, namespace: &ModulePath) -> (r: String)
        ensures
            r@ == module_file_path(self.root_file_view(), namespace@),
    {
        if namespace.is_root() {
            return self.root_file.clone();
        }
        let chars = crate::text::chars_of(self.root_file.as_str());
        let dir = parent_chars(chars.as_slice());
        let mut path = crate::text::string_of(dir.as_slice());
        let segments = namespace.segments();
        let last = segments.len() - 1;
        let mut i: usize = 0;
        while i < last
            invariant
                i <= last,
                last + 1 == segments.len(),
                texts(segments@) == namespace@,
                path@ == join_components(parent_dir(self.root_file@), namespace@.take(i as int)),
            decreases last - i,
        {
            push_component(&mut path, segments[i].as_str());
            assert(namespace@.take(i + 1).drop_last() =~= namespace@.take(i as int));
            i = i + 1;
        }
        assert(namespace@.take(last as int) =~= namespace@.drop_last());
        let mut file = segments[last].clone();
        push_str(&mut file, ".mf");
        push_component(&mut path, file.as_str());
        path
    }
}

/// The directory part of a path.
fn parent_chars(path: &[char]) -> (r: Vec<char>)
    ensures
        r@ == parent_dir(path@),
{
    let mut end = path.len();
    assert(path@.take(end as int) =~= path@);
    while end > 0 && path[end - 1] != '/'
        invariant
            end <= path.len(),
            parent_dir(path@.take(end as int)) == parent_dir(path@),
        decreases end,
    {
        assert(path@.take(end - 1) =~= path@.take(end as int).drop_last());
        end = end - 1;
    }
    if end == 0 {
        assert(path@.take(0) =~= Seq::<char>::empty());
        return Vec::new();
    }
    assert(path@.take(end - 1) =~= path@.take(end as int).drop_last());
    end = end - 1;
    while end > 0 && path[end - 1] == '/'
        invariant
            end <= path.len(),
            trim_separators(path@.take(end as int)) == parent_dir(path@),
        decreases end,
    {
        assert(path@.take(end - 1) =~= path@.take(end as int).drop_last());
        end = end - 1;
    }
    if end == 0 {
        assert(path@.take(0) =~= Seq::<char>::empty());
        return vec!['/'];
    }
    assert(path@.take(end as int).last() == path@[end - 1]);
    crate::text::copy_range(path, 0, end)
}

/// The module path of the directory of a module file.
fn parent_segments(path: &ModulePath) -> (r: Vec<String>)
    ensures
        texts(r@) == module_parent(path@),
{
    let segments = path.segments();
    let mut r: Vec<String> = Vec::new();
    if segments.len() == 0 {
        assert(texts(r@) =~= path@);
        return r;
    }
    let mut i: usize = 0;
    while i + 1 < segments.len()
        invariant
            i + 1 <= segments.len(),
            texts(segments@) == path@,
            texts(r@) == path@.take(i as int),
        decreases segments.len() - i,
    {
        let ghost before = r@;
        r.push(segments[i].clone());
        assert(texts(r@) =~= texts(before).push(segments@[i as int]@));
        assert(texts(segments@)[i as int] == segments@[i as int]@);
        assert(texts(r@) =~= path@.take(i + 1));
        i = i + 1;
    }
    assert(path@.take(i as int) =~= path@.drop_last());
    r
}

/// Extends a path by one component.
fn push_component(path: &mut String, component: &str)
    ensures
        final(path)@ == join_component(old(path)@, component@),
{
    let chars = crate::text::chars_of(path.as_str());
    if chars.len() > 0 && chars[chars.len() - 1] != '/' {
        path.push('/');
    }
    push_str(path, component);
}

/// A module path as a sequence of segments.
pub type Namespace = Seq<Seq<char>>;

/// How an import path resolves: not at all (an empty path), to an error
/// with its code and message, or to a target.
pub enum Resolution {
    Skip,
    Fail(Seq<char>, Seq<char>),
    Found(IdView),
}

/// The directory of a module file, as a module path: the path without its
/// last segment, the root for the root module.
pub open spec fn module_parent(ns: Namespace) -> Namespace {
    if ns.len() == 0 {
        ns
    } else {
        ns.drop_last()
    }
}

/// The first invalid segment of `ns`.
pub open spec fn first_invalid(ns: Namespace) -> Seq<char> {
    ns[choose|i: int| crate::model::first_invalid_segment(ns, i)]
}

/// The target `name` in module `ns`, if `ns` is a valid module path.
pub open spec fn found_in(ns: Namespace, name: Seq<char>) -> Resolution {
    if forall|i: int| 0 <= i < ns.len() ==> crate::model::valid_segment(#[trigger] ns[i]) {
        Resolution::Found((ns, name))
    } else {
        Resolution::Fail("P012"@, "`"@ + first_invalid(ns) + "` is not a valid module path segment"@)
    }
}

/// How the import path `segs` resolves in the file of module `current`:
/// `crate` starts at the project root, `self` at the directory of the file
/// and `super` one directory above; the last segment names the target.
pub open spec fn resolution(current: Namespace, segs: Seq<Seq<char>>) -> Resolution {
    if segs.len() == 0 {
        Resolution::Skip
    } else if segs.len() < 2 {
        Resolution::Fail("P010"@, "an include path requires an anchor and target name"@)
    } else {
        let inner = segs.subrange(1, segs.len() - 1);
        let name = segs.last();
        if segs[0] == "crate"@ {
            found_in(inner, name)
        } else if segs[0] == "self"@ {
            found_in(module_parent(current) + inner, name)
        } else if segs[0] == "super"@ {
            if module_parent(current).len() == 0 {
                Resolution::Fail("P015"@, "`super` escapes the project root"@)
            } else {
                found_in(module_parent(current).drop_last() + inner, name)
            }
        } else {
            Resolution::Fail("P011"@, "an include path must start with `crate`, `self`, or `super`"@)
        }
    }
}

/// The diagnostics of resolving one reference in `file`.
pub open spec fn resolution_diags(current: Namespace, r: crate::parser::RefView, file: Seq<char>) -> Seq<AnalysisDiagView> {
    match resolution(current, r.path) {
        Resolution::Fail(code, message) => seq![file_error(file, Some(r.line), code, message)],
        _ => seq![],
    }
}

/// The first invalid segment is unique.
proof fn lemma_first_invalid_unique(ns: Namespace, i: int, j: int)
    requires
        crate::model::first_invalid_segment(ns, i),
        crate::model::first_invalid_segment(ns, j),
    ensures
        i == j,
{
}

/// Resolves an import path, reporting why it cannot be resolved.
pub(crate) fn resolve_path(
    current: &ModulePath,
    reference: &ParsedReference,
    file: &str,
    diagnostics: &mut Vec<AnalysisDiagnostic>,
) -> (r: Option<TargetId>)
    ensures
        analysis_views(final(diagnostics)@) == analysis_views(old(diagnostics)@) + resolution_diags(current@, reference@, file@),
        match resolution(current@, reference@.path) {
            Resolution::Found(id) => r matches Some(t) && t@ == id,
            _ => r is None,
        },
{
    let ghost old_d = analysis_views(diagnostics@);
    let segments = reference.path().segments();
    let ghost segs = reference@.path;
    assert(texts(segments@) == segs);
    if segments.len() == 0 {
        return None;
    }
    if segments.len() < 2 {
        let d = AnalysisDiagnostic::error(file, Some(reference.line()), "P010", owned("an include path requires an anchor and target name"));
        diagnostics.push(d);
        assert(analysis_views(diagnostics@) =~= old_d.push(d@));
        return None;
    }
    let n = segments.len();
    let target_name = segments[n - 1].as_str();
    let anchor = segments[0].as_str();
    let mut module_segments: Vec<String> = Vec::new();
    let parent = parent_segments(current);
    if crate::text::text_eq(anchor, "crate") {
    } else if crate::text::text_eq(anchor, "self") {
        module_segments = parent;
    } else if crate::text::text_eq(anchor, "super") {
        if parent.len() == 0 {
            let d = AnalysisDiagnostic::error(file, Some(reference.line()), "P015", owned("`super` escapes the project root"));
            diagnostics.push(d);
            assert(analysis_views(diagnostics@) =~= old_d.push(d@));
            return None;
        }
        let ghost pv = texts(parent@);
        let mut up: Vec<String> = Vec::new();
        let mut i: usize = 0;
        while i + 1 < parent.len()
            invariant
                i + 1 <= parent.len(),
                texts(up@) == texts(parent@).take(i as int),
            decreases parent.len() - i,
        {
            let ghost before = up@;
            up.push(parent[i].clone());
            assert(texts(up@) =~= texts(before).push(parent@[i as int]@));
            assert(texts(parent@)[i as int] == parent@[i as int]@);
            assert(texts(parent@).take(i + 1) =~= texts(parent@).take(i as int).push(texts(parent@)[i as int]));
            assert(texts(up@) =~= texts(parent@).take(i as int).push(texts(parent@)[i as int]));
            i = i + 1;
        }
        assert(texts(parent@).take(i as int) =~= texts(parent@).drop_last());
        module_segments = up;
    } else {
        let d = AnalysisDiagnostic::error(file, Some(reference.line()), "P011", owned("an include path must start with `crate`, `self`, or `super`"));
        diagnostics.push(d);
        assert(analysis_views(diagnostics@) =~= old_d.push(d@));
        return None;
    }
    let ghost base = texts(module_segments@);
    let mut k: usize = 1;
    while k + 1 < n
        invariant
            1 <= k,
            k + 1 <= n,
            n == segments@.len(),
            texts(segments@) == segs,
            texts(module_segments@) == base + segs.subrange(1, k as int),
        decreases n - k,
    {
        let ghost before = module_segments@;
        module_segments.push(segments[k].clone());
        assert(texts(module_segments@) =~= texts(before).push(segments@[k as int]@));
        assert(texts(segments@)[k as int] == segments@[k as int]@);
        assert(segs.subrange(1, k + 1) =~= segs.subrange(1, k as int).push(segs[k as int]));
        assert(texts(module_segments@) =~= base + segs.subrange(1, k + 1));
        k = k + 1;
    }
    proof {
        reveal_strlit("crate");
        reveal_strlit("self");
        reveal_strlit("super");
    }
    let ghost ms = texts(module_segments@);
    let ghost msv = module_segments@;
    match ModulePath::new(module_segments) {
        Ok(namespace) => {
            assert(found_in(ms, segs.last()) == Resolution::Found((ms, segs.last())));
            Some(TargetId::new(namespace, target_name))
        },
        Err(error) => {
            proof {
                let i = choose|i: int| crate::model::first_invalid_segment(ms, i)
                    && error == crate::model::ModulePathError::InvalidSegment(msv[i]);
                let c = choose|c: int| crate::model::first_invalid_segment(ms, c);
                lemma_first_invalid_unique(ms, i, c);
                assert(msv[i]@ == first_invalid(ms));
            }
            let message = error.to_string();
            let d = AnalysisDiagnostic::error(file, Some(reference.line()), "P012", message);
            diagnostics.push(d);
            assert(analysis_views(diagnostics@) =~= old_d.push(d@));
            None
        },
    }
}

/// The diagnostics of resolving the imports of a file, in order.
pub open spec fn include_diags(current: Namespace, includes: Seq<crate::parser::ImportView>, file: Seq<char>) -> Seq<AnalysisDiagView>
    decreases includes.len(),
{
    if includes.len() == 0 {
        seq![]
    } else {
        include_diags(current, includes.drop_last(), file) + resolution_diags(current, includes.last().target, file)
    }
}

/// The modules of the imports of a file that resolve, in order.
pub open spec fn include_modules(current: Namespace, includes: Seq<crate::parser::ImportView>) -> Seq<Namespace>
    decreases includes.len(),
{
    if includes.len() == 0 {
        seq![]
    } else {
        include_modules(current, includes.drop_last()) + match resolution(current, includes.last().target.path) {
            Resolution::Found(id) => seq![id.0],
            _ => seq![],
        }
    }
}

/// The diagnostics of the parser, tied to their file.
pub open spec fn tagged_all(file: Seq<char>, d: Seq<DiagView>) -> Seq<AnalysisDiagView> {
    d.map_values(|x: DiagView| tagged(file, x))
}

/// The namespaces of a list of parsed modules.
pub open spec fn parsed_namespaces(v: Seq<ParsedModuleView>) -> Seq<Namespace> {
    v.map_values(|m: ParsedModuleView| m.namespace)
}

/// The parsed module of namespace `ns`, if there is one.
pub open spec fn parsed_at(v: Seq<ParsedModuleView>, ns: Namespace) -> Option<ParsedModuleView> {
    if exists|i: int| 0 <= i < v.len() && (#[trigger] v[i]).namespace == ns {
        Some(v[choose|i: int| 0 <= i < v.len() && (#[trigger] v[i]).namespace == ns])
    } else {
        None
    }
}

/// `pending` without the trailing entries that were already visited.
pub open spec fn drop_visited(pending: Seq<Namespace>, visited: Seq<Namespace>) -> Seq<Namespace>
    decreases pending.len(),
{
    if pending.len() == 0 || !visited.contains(pending.last()) {
        pending
    } else {
        drop_visited(pending.drop_last(), visited)
    }
}

/// The view of a request to read a module file.
pub struct RequestView {
    pub namespace: Namespace,
    pub file: Seq<char>,
}

/// A module whose file is to be read next.
#[derive(Debug)]
pub struct ModuleRequest {
    namespace: ModulePath,
    file: String,
}

impl View for ModuleRequest {
    type V = RequestView;

    closed spec fn view(&self) -> RequestView {
        RequestView { namespace: self.namespace@, file: self.file@ }
    }
}

impl ModuleRequest {
    /// The module to read.
    pub fn namespace(&self) -> (r: &ModulePath)
        ensures
            r@ == self@.namespace,
    {
        &self.namespace
    }

    /// The Markfile of the module.
    pub fn file(&self) -> (r: &str)
        ensures
            r@ == self@.file,
    {
        self.file.as_str()
    }
}

/// The view of an analysis in progress.
pub struct StateView {
    pub root_file: Seq<char>,
    pub mode: AnalysisMode,
    pub start: Option<IdView>,
    pub parsed: Seq<ParsedModuleView>,
    pub pending: Seq<Namespace>,
    pub visited: Seq<Namespace>,
    pub diagnostics: Seq<AnalysisDiagView>,
}

/// The modules loaded so far, the modules still to load, and the
/// diagnostics of an analysis.
pub struct AnalysisState {
    analyzer: ProjectAnalyzer,
    start: Option<TargetId>,
    parsed: Vec<ParsedModule>,
    pending: Vec<ModulePath>,
    visited: Vec<ModulePath>,
    diagnostics: Vec<AnalysisDiagnostic>,
}

/// The views of a list of module paths.
pub open spec fn path_views(v: Seq<ModulePath>) -> Seq<Namespace> {
    v.map_values(|p: ModulePath| p@)
}

/// The views of a list of parsed modules.
pub open spec fn parsed_views(v: Seq<ParsedModule>) -> Seq<ParsedModuleView> {
    v.map_values(|m: ParsedModule| m@)
}

impl View for AnalysisState {
    type V = StateView;

    closed spec fn view(&self) -> StateView {
        StateView {
            root_file: self.analyzer.root_file@,
            mode: self.analyzer.mode,
            start: match self.start {
                Some(t) => Some(t@),
                None => None,
            },
            parsed: parsed_views(self.parsed@),
            pending: path_views(self.pending@),
            visited: path_views(self.visited@),
            diagnostics: analysis_views(self.diagnostics@),
        }
    }
}

/// The parsed modules are kept in namespace order, each namespace once.
pub open spec fn state_wf(s: StateView) -> bool {
    crate::model::paths_sorted(parsed_namespaces(s.parsed))
}

/// Whether `v` holds the module path `p`.
fn contains_path(v: &Vec<ModulePath>, p: &ModulePath) -> (r: bool)
    ensures
        r == path_views(v@).contains(p@),
{
    let mut i: usize = 0;
    while i < v.len()
        invariant
            i <= v.len(),
            forall|j: int| 0 <= j < i ==> (#[trigger] v@[j])@ != p@,
        decreases v.len() - i,
    {
        if v[i].same(p) {
            assert(path_views(v@)[i as int] == p@);
            return true;
        }
        i = i + 1;
    }
    assert(!path_views(v@).contains(p@)) by {
        if path_views(v@).contains(p@) {
            let k = choose|k: int| 0 <= k < path_views(v@).len() && path_views(v@)[k] == p@;
            assert(v@[k]@ == p@);
        }
    }
    false
}

/// Module paths from the greatest to the least.
pub open spec fn paths_descending(k: Seq<Namespace>) -> bool {
    forall|i: int, j: int| 0 <= i < j < k.len() ==> !crate::order::path_lt(#[trigger] k[i], #[trigger] k[j])
}

/// The modules found by a scan of the project directory, from the greatest
/// path to the least: the order in which they are queued, so that the entry
/// module, whose path is the least, is taken first.
pub fn load_order(modules: Vec<ModulePath>) -> (r: Vec<ModulePath>)
    ensures
        paths_descending(path_views(r@)),
        path_views(r@).to_multiset() == path_views(modules@).to_multiset(),
{
    broadcast use vstd::seq_lib::group_to_multiset_ensures;

    let ghost all = path_views(modules@);
    let mut rest = modules;
    let mut ordered: Vec<ModulePath> = Vec::new();
    let ghost mut taken: int = 0;
    proof {
        assert(path_views(ordered@) =~= all.subrange(0, 0));
        assert(path_views(rest@) =~= all.subrange(0, all.len() as int));
    }
    while rest.len() > 0
        invariant
            0 <= taken <= all.len(),
            path_views(rest@) == all.subrange(taken, all.len() as int),
            paths_descending(path_views(ordered@)),
            path_views(ordered@).to_multiset() == all.subrange(0, taken).to_multiset(),
        decreases rest.len(),
    {
        let ghost before = rest@;
        proof {
            assert(path_views(before).len() == before.len());
        }
        let next = rest.remove(0);
        let ghost x = next@;
        let ghost k = path_views(ordered@);
        proof {
            assert(path_views(before)[0] == x);
            assert(all.subrange(taken, all.len() as int)[0] == all[taken]);
            assert(rest@ =~= before.subrange(1, before.len() as int));
            assert forall|i: int| 0 <= i < rest@.len() implies path_views(rest@)[i] == all.subrange(taken + 1, all.len() as int)[i] by {
                assert(path_views(before)[i + 1] == all.subrange(taken, all.len() as int)[i + 1]);
            }
            assert(path_views(rest@) =~= all.subrange(taken + 1, all.len() as int));
            assert(all.subrange(0, taken + 1) =~= all.subrange(0, taken).push(x));
        }
        let mut p: usize = 0;
        while p < ordered.len() && !ordered[p].precedes(&next)
            invariant
                p <= ordered.len(),
                k == path_views(ordered@),
                x == next@,
                forall|j: int| 0 <= j < p ==> !crate::order::path_lt(#[trigger] k[j], x),
            decreases ordered.len() - p,
        {
            assert(k[p as int] == ordered@[p as int]@);
            p = p + 1;
        }
        proof {
            if p < ordered.len() {
                assert(k[p as int] == ordered@[p as int]@);
                assert(crate::order::path_lt(k[p as int], x));
            }
            let n = k.insert(p as int, x);
            assert forall|i: int, j: int| 0 <= i < j < n.len() implies !crate::order::path_lt(#[trigger] n[i], #[trigger] n[j]) by {
                if j == p {
                    assert(n[i] == k[i]);
                } else if i == p {
                    assert(n[j] == k[j - 1]);
                    if crate::order::path_lt(x, k[j - 1]) {
                        if k[j - 1] != k[p as int] {
                            crate::order::lemma_path_lt_total(k[j - 1], k[p as int]);
                            assert(!crate::order::path_lt(k[p as int], k[j - 1]));
                            crate::order::lemma_path_lt_transitive(x, k[j - 1], k[p as int]);
                        }
                        crate::order::lemma_path_lt_transitive(x, k[p as int], x);
                        crate::order::lemma_path_lt_irreflexive(x);
                    }
                } else if i < p && j > p {
                    assert(n[i] == k[i] && n[j] == k[j - 1]);
                } else if i > p {
                    assert(n[i] == k[i - 1] && n[j] == k[j - 1]);
                } else {
                    assert(n[i] == k[i] && n[j] == k[j]);
                }
            }
            vstd::seq_lib::to_multiset_insert(k, p as int, x);
        }
        let ghost old_ordered = ordered@;
        ordered.insert(p, next);
        proof {
            assert(path_views(ordered@) =~= path_views(old_ordered).insert(p as int, x));
            assert(path_views(ordered@).to_multiset() =~= k.to_multiset().insert(x));
            vstd::seq_lib::to_multiset_build(all.subrange(0, taken), x);
            assert(all.subrange(0, taken + 1).to_multiset() =~= all.subrange(0, taken).to_multiset().insert(x));
            taken = taken + 1;
        }
    }
    proof {
        assert(all.subrange(0, taken) =~= all);
    }
    ordered
}

/// A file name without its `.mf` ending, where it has one.
pub open spec fn without_mf(name: Seq<char>) -> Seq<char> {
    if name.len() >= 3 && name.subrange(name.len() - 3, name.len() as int) == ".mf"@ {
        name.subrange(0, name.len() - 3)
    } else {
        name
    }
}

/// The module path that the path components of a Markfile, relative to the
/// project directory, name: the file name loses its `.mf` ending.
pub open spec fn module_segments(parts: Seq<Seq<char>>) -> Seq<Seq<char>> {
    if parts.len() == 0 {
        parts
    } else {
        parts.drop_last().push(without_mf(parts.last()))
    }
}

/// Drops the `.mf` ending of a file name.
fn strip_mf(name: String) -> (r: String)
    ensures
        r@ == without_mf(name@),
{
    let v = chars_of(name.as_str());
    let n = v.len();
    proof {
        reveal_strlit(".mf");
    }
    if n >= 3 && v[n - 3] == '.' && v[n - 2] == 'm' && v[n - 1] == 'f' {
        assert(name@.subrange(n - 3, n as int) =~= ".mf"@);
        let kept = copy_range(v.as_slice(), 0, n - 3);
        string_of(kept.as_slice())
    } else {
        proof {
            if n >= 3 && name@.subrange(n - 3, n as int) == ".mf"@ {
                assert(name@.subrange(n - 3, n as int)[0] == name@[n - 3]);
                assert(name@.subrange(n - 3, n as int)[1] == name@[n - 2]);
                assert(name@.subrange(n - 3, n as int)[2] == name@[n - 1]);
            }
        }
        name
    }
}

/// What a Markfile found below the project directory adds to a scan of
/// the directory, given its path components relative to the directory: the
/// module they name (the last one without `.mf`), unless they do not form a
/// module path or name a module found already; either problem is reported
/// as `P017`.
pub fn discover_module(modules: &mut Vec<ModulePath>, file: &str, parts: Vec<String>) -> (r: Option<AnalysisDiagnostic>)
    ensures
        ({
            let segs = module_segments(texts(parts@));
            &&& (forall|i: int| 0 <= i < segs.len() ==> crate::model::valid_segment(#[trigger] segs[i])) ==> if path_views(
                old(modules)@,
            ).contains(segs) {
                &&& final(modules)@ == old(modules)@
                &&& r matches Some(d) && d@ == file_error(file@, None, "P017"@, "duplicate module path `"@ + join(segs, "::"@) + "`"@)
            } else {
                &&& path_views(final(modules)@) == path_views(old(modules)@).push(segs)
                &&& r is None
            }
            &&& !(forall|i: int| 0 <= i < segs.len() ==> crate::model::valid_segment(#[trigger] segs[i])) ==> {
                &&& final(modules)@ == old(modules)@
                &&& exists|i: int| #[trigger] crate::model::first_invalid_segment(segs, i) && (r matches Some(d) && d@ == file_error(
                    file@,
                    None,
                    "P017"@,
                    "invalid module file path: "@ + ("`"@ + segs[i] + "` is not a valid module path segment"@),
                ))
            }
        }),
{
    let ghost names = texts(parts@);
    let mut segments = parts;
    match segments.pop() {
        Some(last) => {
            segments.push(strip_mf(last));
            assert(texts(segments@) =~= module_segments(names));
        },
        None => {
            assert(texts(segments@) =~= module_segments(names));
        },
    }
    match ModulePath::new(segments) {
        Ok(namespace) => {
            if contains_path(modules, &namespace) {
                let mut message = owned("duplicate module path `");
                let name = namespace.to_string();
                push_str(&mut message, name.as_str());
                push_str(&mut message, "`");
                Some(AnalysisDiagnostic::error(file, None, "P017", message))
            } else {
                let ghost before = modules@;
                modules.push(namespace);
                proof {
                    assert(path_views(modules@) =~= path_views(before).push(segments@.map_values(|s: String| s@)));
                }
                None
            }
        },
        Err(error) => {
            let mut message = owned("invalid module file path: ");
            let text = error.to_string();
            push_str(&mut message, text.as_str());
            let d = AnalysisDiagnostic::error(file, None, "P017", message);
            proof {
                let segs = texts(segments@);
                let i = choose|i: int| crate::model::first_invalid_segment(segs, i)
                    && error == crate::model::ModulePathError::InvalidSegment(segments@[i]);
                assert(segs[i] == segments@[i]@);
                assert(!crate::model::valid_segment(segs[i]));
                assert(d@ == file_error(file@, None, "P017"@, "invalid module file path: "@ + ("`"@ + segs[i] + "` is not a valid module path segment"@))) by {
                    assert(message@ =~= "invalid module file path: "@ + ("`"@ + segs[i] + "` is not a valid module path segment"@));
                }
            }
            Some(d)
        },
    }
}

impl AnalysisState {
    /// Whether the parsed modules are in namespace order.
    pub open spec fn wf(&self) -> bool {
        state_wf(self@)
    }

    /// An analysis that starts from the module of `start`, if given.
    pub fn new(analyzer: &ProjectAnalyzer, start: Option<TargetId>) -> (r: Self)
        ensures
            r.wf(),
            r@ == (StateView {
                root_file: analyzer.root_file_view(),
                mode: analyzer.mode_view(),
                start: match start {
                    Some(t) => Some(t@),
                    None => None,
                },
                parsed: seq![],
                pending: match start {
                    Some(t) => seq![t@.0],
                    None => seq![],
                },
                visited: seq![],
                diagnostics: seq![],
            }),
    {
        let mut pending: Vec<ModulePath> = Vec::new();
        match &start {
            Some(t) => {
                pending.push(t.namespace().duplicate());
            },
            None => {},
        }
        let r = AnalysisState {
            analyzer: analyzer.duplicate(),
            start,
            parsed: Vec::new(),
            pending,
            visited: Vec::new(),
            diagnostics: Vec::new(),
        };
        assert(r@.root_file == analyzer.root_file_view());
        assert(r@.mode == analyzer.mode_view());
        assert(r@.start == match start { Some(t) => Some(t@), None => None::<IdView> });
        assert(r@.pending =~= match start { Some(t) => seq![t@.0], None => Seq::<Namespace>::empty() });
        assert(parsed_views(r.parsed@) =~= seq![]);
        assert(path_views(r.visited@) =~= seq![]);
        assert(analysis_views(r.diagnostics@) =~= seq![]);
        r
    }

    /// Queues a module to load.
    pub fn add_pending(&mut self, module: ModulePath)
        ensures
            final(self)@ == (StateView { pending: old(self)@.pending.push(module@), ..old(self)@ }),
    {
        let ghost before = self.pending@;
        self.pending.push(module);
        assert(path_views(self.pending@) =~= path_views(before).push(module@));
    }

    /// Records a diagnostic found outside the analysis, such as one of the
    /// directory scan.
    pub fn add_diagnostic(&mut self, diagnostic: AnalysisDiagnostic)
        ensures
            final(self)@ == (StateView { diagnostics: old(self)@.diagnostics.push(diagnostic@), ..old(self)@ }),
    {
        let ghost before = self.diagnostics@;
        self.diagnostics.push(diagnostic);
        assert(analysis_views(self.diagnostics@) =~= analysis_views(before).push(diagnostic@));
    }

    /// Takes the next module that was not loaded yet, marks it visited, and
    /// says which file to read for it; `None` once no module is pending.
    pub fn next_module(&mut self) -> (r: Option<ModuleRequest>)
        ensures
            ({
                let q = drop_visited(old(self)@.pending, old(self)@.visited);
                &&& q.len() == 0 ==> r is None && final(self)@ == (StateView { pending: seq![], ..old(self)@ })
                &&& q.len() > 0 ==> (r matches Some(req) && req@.namespace == q.last()
                    && req@.file == module_file_path(old(self)@.root_file, q.last())
                    && final(self)@ == (StateView { pending: q.drop_last(), visited: old(self)@.visited.push(q.last()), ..old(self)@ }))
            }),
    {
        let ghost q = drop_visited(self@.pending, self@.visited);
        loop
            invariant
                drop_visited(path_views(self.pending@), path_views(self.visited@)) == q,
                q == drop_visited(old(self)@.pending, old(self)@.visited),
                self@ == (StateView { pending: self@.pending, ..old(self)@ }),
            decreases self.pending@.len(),
        {
            let ghost before = self.pending@;
            match self.pending.pop() {
                None => {
                    assert(path_views(self.pending@) =~= seq![]);
                    assert(path_views(before) =~= seq![]);
                    assert(self@ =~= (StateView { pending: seq![], ..old(self)@ }));
                    return None;
                },
                Some(namespace) => {
                    assert(before == self.pending@.push(namespace));
                    assert(path_views(self.pending@) =~= path_views(before).drop_last());
                    assert(path_views(before).last() == namespace@);
                    if contains_path(&self.visited, &namespace) {
                        continue;
                    }
                    assert(q == path_views(before));
                    let file = self.analyzer.module_file(&namespace);
                    let ghost old_visited = self.visited@;
                    self.visited.push(namespace.duplicate());
                    assert(path_views(self.visited@) =~= path_views(old_visited).push(namespace@));
                    assert(self@ =~= (StateView { pending: q.drop_last(), visited: old(self)@.visited.push(q.last()), ..old(self)@ }));
                    return Some(ModuleRequest { namespace, file });
                },
            }
        }
    }

    /// Reports that the file of a named module is the root file itself.
    pub fn alias_root(&mut self, request: &ModuleRequest)
        ensures
            final(self)@ == (StateView {
                diagnostics: old(self)@.diagnostics.push(file_error(
                    request@.file,
                    None,
                    "P016"@,
                    "module `"@ + join(request@.namespace, "::"@) + "` aliases the project root file"@,
                )),
                ..old(self)@
            }),
    {
        let mut message = owned("module `");
        let name = request.namespace.to_string();
        push_str(&mut message, name.as_str());
        push_str(&mut message, "` aliases the project root file");
        let d = AnalysisDiagnostic::error(request.file.as_str(), None, "P016", message);
        self.add_diagnostic(d);
    }

    /// Reports that the file of a module could not be read, and why.
    pub fn read_failed(&mut self, request: &ModuleRequest, error: &str)
        ensures
            final(self)@ == (StateView {
                diagnostics: old(self)@.diagnostics.push(file_error(
                    request@.file,
                    None,
                    "P001"@,
                    "cannot read module `"@ + join(request@.namespace, "::"@) + "`: "@ + error@,
                )),
                ..old(self)@
            }),
    {
        let mut message = owned("cannot read module `");
        let name = request.namespace.to_string();
        push_str(&mut message, name.as_str());
        push_str(&mut message, "`: ");
        push_str(&mut message, error);
        let d = AnalysisDiagnostic::error(request.file.as_str(), None, "P001", message);
        self.add_diagnostic(d);
    }
}

/// The parse mode that matches an analysis mode.
pub open spec fn parse_mode_of(mode: AnalysisMode) -> ParseMode {
    match mode {
        AnalysisMode::Build => ParseMode::Build,
        AnalysisMode::DryRun => ParseMode::DryRun,
    }
}

/// In a sorted list of module paths each path occurs once.
proof fn lemma_paths_unique(k: Seq<Namespace>, i: int, j: int)
    requires
        crate::model::paths_sorted(k),
        0 <= i < k.len(),
        0 <= j < k.len(),
        k[i] == k[j],
    ensures
        i == j,
{
    if i < j {
        assert(crate::order::path_lt(k[i], k[j]));
        crate::order::lemma_path_lt_irreflexive(k[i]);
    } else if j < i {
        assert(crate::order::path_lt(k[j], k[i]));
        crate::order::lemma_path_lt_irreflexive(k[i]);
    }
}

/// In a list sorted by namespace, the module at `i` is the one found for its
/// namespace.
proof fn lemma_parsed_at(v: Seq<ParsedModuleView>, i: int)
    requires
        crate::model::paths_sorted(parsed_namespaces(v)),
        0 <= i < v.len(),
    ensures
        parsed_at(v, v[i].namespace) == Some(v[i]),
{
    let ns = v[i].namespace;
    let c = choose|c: int| 0 <= c < v.len() && (#[trigger] v[c]).namespace == ns;
    assert(parsed_namespaces(v)[c] == parsed_namespaces(v)[i]);
    lemma_paths_unique(parsed_namespaces(v), c, i);
}

/// Records a parsed module in namespace order, replacing the module of the
/// same namespace.
fn insert_parsed(parsed: &mut Vec<ParsedModule>, m: ParsedModule)
    requires
        crate::model::paths_sorted(parsed_namespaces(parsed_views(old(parsed)@))),
    ensures
        crate::model::paths_sorted(parsed_namespaces(parsed_views(final(parsed)@))),
        parsed_at(parsed_views(final(parsed)@), m@.namespace) == Some(m@),
        forall|ns: Namespace| ns != m@.namespace ==> #[trigger] parsed_at(parsed_views(final(parsed)@), ns)
            == parsed_at(parsed_views(old(parsed)@), ns),
{
    let ghost old_v = parsed_views(parsed@);
    let ghost k = parsed_namespaces(old_v);
    let mut i: usize = 0;
    while i < parsed.len() && parsed[i].namespace().precedes(m.namespace())
        invariant
            i <= parsed.len(),
            parsed_views(parsed@) == old_v,
            k == parsed_namespaces(old_v),
            crate::model::paths_sorted(k),
            forall|j: int| 0 <= j < i ==> crate::order::path_lt(#[trigger] k[j], m@.namespace),
        decreases parsed.len() - i,
    {
        assert(k[i as int] == parsed@[i as int]@.namespace);
        i = i + 1;
    }
    let replace = i < parsed.len() && parsed[i].namespace().same(m.namespace());
    let ghost mv = m@;
    if replace {
        assert(k[i as int] == mv.namespace);
        parsed.remove(i);
        parsed.insert(i, m);
        assert(parsed_views(parsed@) =~= old_v.update(i as int, mv));
        assert(parsed_namespaces(parsed_views(parsed@)) =~= k);
    } else {
        proof {
            if i < old_v.len() {
                assert(k[i as int] == old_v[i as int].namespace);
                crate::order::lemma_path_lt_total(mv.namespace, k[i as int]);
            }
            crate::model::lemma_insert_keeps_paths_sorted(k, i as int, mv.namespace);
        }
        parsed.insert(i, m);
        assert(parsed_views(parsed@) =~= old_v.insert(i as int, mv));
        assert(parsed_namespaces(parsed_views(parsed@)) =~= k.insert(i as int, mv.namespace));
    }
    let ghost new_v = parsed_views(parsed@);
    proof {
        assert(new_v[i as int] == mv);
        lemma_parsed_at(new_v, i as int);
        assert forall|ns: Namespace| ns != mv.namespace implies #[trigger] parsed_at(new_v, ns) == parsed_at(old_v, ns) by {
            if exists|j: int| 0 <= j < old_v.len() && (#[trigger] old_v[j]).namespace == ns {
                let j = choose|j: int| 0 <= j < old_v.len() && (#[trigger] old_v[j]).namespace == ns;
                lemma_parsed_at(old_v, j);
                let nj = if replace || j < i { j } else { j + 1 };
                assert(new_v[nj] == old_v[j]);
                lemma_parsed_at(new_v, nj);
            } else {
                if exists|j: int| 0 <= j < new_v.len() && (#[trigger] new_v[j]).namespace == ns {
                    let j = choose|j: int| 0 <= j < new_v.len() && (#[trigger] new_v[j]).namespace == ns;
                    if j != i {
                        let oj = if replace || j < i { j } else { j - 1 };
                        assert(old_v[oj] == new_v[j]);
                    }
                }
            }
        }
    }
}

impl AnalysisState {
    /// Parses the text of a requested module file: records the parser's
    /// diagnostics against the file, resolves the file's imports (reporting
    /// those that cannot be resolved) and queues their modules, and records
    /// the module as scanned.
    pub fn parse_source(&mut self, request: &ModuleRequest, source: &str)
        requires
            old(self).wf(),
        ensures
            final(self).wf(),
            ({
                let res = spec_parse(parse_mode_of(old(self)@.mode), request@.namespace, source@);
                let ns = request@.namespace;
                &&& final(self)@.diagnostics == old(self)@.diagnostics + tagged_all(request@.file, res.diagnostics)
                    + include_diags(ns, res.module.includes, request@.file)
                &&& final(self)@.pending == old(self)@.pending + include_modules(ns, res.module.includes)
                &&& parsed_at(final(self)@.parsed, ns) == Some(res.module)
                &&& forall|other: Namespace| other != ns ==> #[trigger] parsed_at(final(self)@.parsed, other)
                    == parsed_at(old(self)@.parsed, other)
                &&& final(self)@.root_file == old(self)@.root_file
                &&& final(self)@.mode == old(self)@.mode
                &&& final(self)@.start == old(self)@.start
                &&& final(self)@.visited == old(self)@.visited
            }),
    {
        let ghost ns = request@.namespace;
        let ghost file = request@.file;
        let mode = match self.analyzer.mode {
            AnalysisMode::Build => ParseMode::Build,
            AnalysisMode::DryRun => ParseMode::DryRun,
        };
        let parser = Parser::new(mode);
        let result = parser.parse(request.namespace.duplicate(), source);
        let ghost res = result@;
        proof {
            crate::parser::lemma_parse_namespace(mode, ns, source@);
        }
        let (module, parse_diagnostics) = result.into_parts();
        let ghost d0 = analysis_views(self.diagnostics@);
        let mut i: usize = 0;
        while i < parse_diagnostics.len()
            invariant
                i <= parse_diagnostics.len(),
                crate::parser::diag_views(parse_diagnostics@) == res.diagnostics,
                analysis_views(self.diagnostics@) == d0 + tagged_all(file, res.diagnostics.take(i as int)),
                file == request@.file,
                self.parsed@ == old(self).parsed@,
                self.pending@ == old(self).pending@,
                self.visited@ == old(self).visited@,
                self.start == old(self).start,
                self.analyzer == old(self).analyzer,
                d0 == old(self)@.diagnostics,
            decreases parse_diagnostics.len() - i,
        {
            let d = AnalysisDiagnostic::from_parse(request.file.as_str(), &parse_diagnostics[i]);
            let ghost before = self.diagnostics@;
            self.diagnostics.push(d);
            proof {
                assert(res.diagnostics[i as int] == parse_diagnostics@[i as int]@);
                assert(res.diagnostics.take(i + 1) =~= res.diagnostics.take(i as int).push(res.diagnostics[i as int]));
                assert(analysis_views(self.diagnostics@) =~= analysis_views(before).push(d@));
                assert(tagged_all(file, res.diagnostics.take(i + 1)) =~= tagged_all(file, res.diagnostics.take(i as int)).push(d@));
            }
            i = i + 1;
        }
        assert(res.diagnostics.take(parse_diagnostics.len() as int) =~= res.diagnostics);
        let ghost d1 = analysis_views(self.diagnostics@);
        let ghost p0 = path_views(self.pending@);
        assert(p0 == old(self)@.pending);
        let includes = module.includes();
        let mut j: usize = 0;
        while j < includes.len()
            invariant
                j <= includes.len(),
                crate::parser::import_views(includes@) == res.module.includes,
                module@ == res.module,
                analysis_views(self.diagnostics@) == d1 + include_diags(ns, res.module.includes.take(j as int), file),
                path_views(self.pending@) == p0 + include_modules(ns, res.module.includes.take(j as int)),
                ns == request@.namespace,
                file == request@.file,
                self.parsed@ == old(self).parsed@,
                self.visited@ == old(self).visited@,
                self.start == old(self).start,
                self.analyzer == old(self).analyzer,
                p0 == old(self)@.pending,
                d1 == old(self)@.diagnostics + tagged_all(file, res.diagnostics),
            decreases includes.len() - j,
        {
            let ghost inc = res.module.includes.take(j + 1);
            assert(inc.drop_last() =~= res.module.includes.take(j as int));
            assert(inc.last() == includes@[j as int]@);
            let ghost before_p = self.pending@;
            match resolve_path(&request.namespace, includes[j].target(), request.file.as_str(), &mut self.diagnostics) {
                Some(target) => {
                    self.pending.push(target.namespace().duplicate());
                    assert(path_views(self.pending@) =~= path_views(before_p).push(target@.0));
                },
                None => {},
            }
            j = j + 1;
        }
        assert(res.module.includes.take(includes.len() as int) =~= res.module.includes);
        insert_parsed(&mut self.parsed, module);
    }

    /// The parsed module of a namespace, if it was loaded.
    #[verifier::loop_isolation(false)]
    pub fn parsed_module(&self, namespace: &ModulePath) -> (r: Option<&ParsedModule>)
        requires
            self.wf(),
        ensures
            match r {
                Some(m) => parsed_at(self@.parsed, namespace@) == Some(m@),
                None => parsed_at(self@.parsed, namespace@) is None,
            },
    {
        let mut i: usize = 0;
        while i < self.parsed.len()
            invariant
                i <= self.parsed.len(),
                forall|j: int| 0 <= j < i ==> (#[trigger] self.parsed@[j])@.namespace != namespace@,
            decreases self.parsed.len() - i,
        {
            if self.parsed[i].namespace().same(namespace) {
                proof {
                    lemma_parsed_at(self@.parsed, i as int);
                }
                return Some(&self.parsed[i]);
            }
            i = i + 1;
        }
        assert(parsed_at(self@.parsed, namespace@) is None) by {
            if exists|j: int| 0 <= j < self@.parsed.len() && (#[trigger] self@.parsed[j]).namespace == namespace@ {
                let j = choose|j: int| 0 <= j < self@.parsed.len() && (#[trigger] self@.parsed[j]).namespace == namespace@;
                assert(self.parsed@[j]@.namespace == namespace@);
            }
        }
        None
    }
}

/// Whether an import of a target is allowed: its module may be missing
/// (reported when the module was loaded), the target may be missing or
/// private, or it may be imported.
pub enum ImportCheck {
    Missing,
    Fail(Seq<char>, Seq<char>),
    Accepted,
}

/// Whether the parsed module `m` declares a target called `name`.
pub open spec fn declares(m: ParsedModuleView, name: Seq<char>) -> bool {
    exists|j: int| 0 <= j < m.targets.len() && (#[trigger] m.targets[j]).name == name
}

/// Whether the parsed module `m` declares `name` public.
pub open spec fn publishes(m: ParsedModuleView, name: Seq<char>) -> bool {
    exists|k: int| 0 <= k < m.public_targets.len() && (#[trigger] m.public_targets[k]).name == name
}

/// Whether the target `id` may be imported from the parsed modules.
pub open spec fn import_check(parsed: Seq<ParsedModuleView>, id: IdView) -> ImportCheck {
    match parsed_at(parsed, id.0) {
        None => ImportCheck::Missing,
        Some(m) => if !declares(m, id.1) {
            ImportCheck::Fail("P008"@, "imported target `"@ + id_text(id) + "` does not exist"@)
        } else if !publishes(m, id.1) {
            ImportCheck::Fail("P009"@, "imported target `"@ + id_text(id) + "` is private"@)
        } else {
            ImportCheck::Accepted
        },
    }
}

/// Whether `m` declares a target called `name`.
pub(crate) fn declares_name(m: &ParsedModule, name: &str) -> (r: bool)
    ensures
        r == declares(m@, name@),
{
    let targets = m.targets();
    let mut j: usize = 0;
    while j < targets.len()
        invariant
            j <= targets.len(),
            crate::parser::parsed_target_views(targets@) == m@.targets,
            forall|x: int| 0 <= x < j ==> (#[trigger] m@.targets[x]).name != name@,
        decreases targets.len() - j,
    {
        assert(m@.targets[j as int] == targets@[j as int]@);
        if crate::text::text_eq(targets[j].name(), name) {
            return true;
        }
        j = j + 1;
    }
    false
}

/// Whether `m` declares `name` public.
pub(crate) fn publishes_name(m: &ParsedModule, name: &str) -> (r: bool)
    ensures
        r == publishes(m@, name@),
{
    let publics = m.public_targets();
    let mut k: usize = 0;
    while k < publics.len()
        invariant
            k <= publics.len(),
            crate::parser::public_views(publics@) == m@.public_targets,
            forall|x: int| 0 <= x < k ==> (#[trigger] m@.public_targets[x]).name != name@,
        decreases publics.len() - k,
    {
        assert(m@.public_targets[k as int] == publics@[k as int]@);
        if crate::text::text_eq(publics[k].name(), name) {
            return true;
        }
        k = k + 1;
    }
    false
}

/// The parsed module of a namespace, in a list kept in namespace order.
#[verifier::loop_isolation(false)]
fn find_parsed<'a>(parsed: &'a Vec<ParsedModule>, namespace: &ModulePath) -> (r: Option<&'a ParsedModule>)
    requires
        crate::model::paths_sorted(parsed_namespaces(parsed_views(parsed@))),
    ensures
        match r {
            Some(m) => parsed_at(parsed_views(parsed@), namespace@) == Some(m@),
            None => parsed_at(parsed_views(parsed@), namespace@) is None,
        },
{
    let ghost v = parsed_views(parsed@);
    let mut i: usize = 0;
    while i < parsed.len()
        invariant
            i <= parsed.len(),
            forall|j: int| 0 <= j < i ==> (#[trigger] parsed@[j])@.namespace != namespace@,
        decreases parsed.len() - i,
    {
        if parsed[i].namespace().same(namespace) {
            proof {
                assert(v[i as int] == parsed@[i as int]@);
                lemma_parsed_at(v, i as int);
            }
            return Some(&parsed[i]);
        }
        i = i + 1;
    }
    assert(parsed_at(v, namespace@) is None) by {
        if exists|j: int| 0 <= j < v.len() && (#[trigger] v[j]).namespace == namespace@ {
            let j = choose|j: int| 0 <= j < v.len() && (#[trigger] v[j]).namespace == namespace@;
            assert(parsed@[j]@.namespace == namespace@);
        }
    }
    None
}

/// Checks that an imported target exists and is public, reporting when not.
fn check_import(
    parsed: &Vec<ParsedModule>,
    target: &TargetId,
    line: usize,
    file: &str,
    diagnostics: &mut Vec<AnalysisDiagnostic>,
) -> (r: bool)
    requires
        crate::model::paths_sorted(parsed_namespaces(parsed_views(parsed@))),
    ensures
        r == (import_check(parsed_views(parsed@), target@) is Accepted),
        analysis_views(final(diagnostics)@) == analysis_views(old(diagnostics)@) + match import_check(parsed_views(parsed@), target@) {
            ImportCheck::Fail(code, message) => seq![file_error(file@, Some(line as nat), code, message)],
            _ => seq![],
        },
{
    let ghost d0 = analysis_views(diagnostics@);
    let module = match find_parsed(parsed, target.namespace()) {
        Some(m) => m,
        None => {
            assert(analysis_views(diagnostics@) =~= d0 + seq![]);
            return false;
        },
    };
    if !declares_name(module, target.name()) {
        let mut message = owned("imported target `");
        let text = target.to_string();
        push_str(&mut message, text.as_str());
        push_str(&mut message, "` does not exist");
        let d = AnalysisDiagnostic::error(file, Some(line), "P008", message);
        diagnostics.push(d);
        assert(analysis_views(diagnostics@) =~= d0 + seq![d@]);
        return false;
    }
    if !publishes_name(module, target.name()) {
        let mut message = owned("imported target `");
        let text = target.to_string();
        push_str(&mut message, text.as_str());
        push_str(&mut message, "` is private");
        let d = AnalysisDiagnostic::error(file, Some(line), "P009", message);
        diagnostics.push(d);
        assert(analysis_views(diagnostics@) =~= d0 + seq![d@]);
        return false;
    }
    assert(analysis_views(diagnostics@) =~= d0 + seq![]);
    true
}

/// The imports of a module under their local names, and the diagnostics
/// found while resolving them.
pub struct ImportsView {
    pub map: Map<Seq<char>, IdView>,
    pub diags: Seq<AnalysisDiagView>,
}

/// The error for an import name that clashes with a local target or with
/// another import.
pub open spec fn ambiguous(file: Seq<char>, line: nat, alias: Seq<char>) -> AnalysisDiagView {
    file_error(file, Some(line), "P003"@, "import name `"@ + alias + "` is ambiguous; choose a unique `as` alias"@)
}

/// The local name of an import: its alias, or the target's own name.
pub open spec fn import_alias(inc: crate::parser::ImportView, id: IdView) -> Seq<char> {
    match inc.alias {
        Some(a) => a,
        None => id.1,
    }
}

/// The imports after the first `n` imports of `pm` in `file`.
pub open spec fn imports_after(parsed: Seq<ParsedModuleView>, pm: ParsedModuleView, file: Seq<char>, n: nat) -> ImportsView
    decreases n,
{
    if n == 0 || n > pm.includes.len() {
        ImportsView { map: Map::empty(), diags: seq![] }
    } else {
        let prev = imports_after(parsed, pm, file, (n - 1) as nat);
        let inc = pm.includes[n - 1];
        match resolution(pm.namespace, inc.target.path) {
            Resolution::Found(id) => match import_check(parsed, id) {
                ImportCheck::Missing => prev,
                ImportCheck::Fail(code, message) => ImportsView {
                    diags: prev.diags.push(file_error(file, Some(inc.target.line), code, message)),
                    ..prev
                },
                ImportCheck::Accepted => {
                    let alias = import_alias(inc, id);
                    if declares(pm, alias) || (prev.map.contains_key(alias) && prev.map[alias] != id) {
                        ImportsView { diags: prev.diags.push(ambiguous(file, inc.target.line, alias)), ..prev }
                    } else if prev.map.contains_key(alias) {
                        prev
                    } else {
                        ImportsView { map: prev.map.insert(alias, id), ..prev }
                    }
                },
            },
            _ => ImportsView { diags: prev.diags + resolution_diags(pm.namespace, inc.target, file), ..prev },
        }
    }
}

/// `aliases` and `targets` list, by increasing alias, the entries of `map`.
pub open spec fn lists_map(aliases: Seq<Seq<char>>, targets: Seq<IdView>, map: Map<Seq<char>, IdView>) -> bool {
    &&& aliases.len() == targets.len()
    &&& crate::model::texts_sorted(aliases)
    &&& map.dom() == aliases.to_set()
    &&& forall|i: int| 0 <= i < aliases.len() ==> map[#[trigger] aliases[i]] == targets[i]
}

/// The position of `name` among sorted aliases, if present.
fn find_alias(aliases: &Vec<String>, name: &str) -> (r: Option<usize>)
    ensures
        match r {
            Some(i) => i < aliases@.len() && aliases@[i as int]@ == name@,
            None => !texts(aliases@).contains(name@),
        },
{
    let mut i: usize = 0;
    while i < aliases.len()
        invariant
            i <= aliases.len(),
            forall|j: int| 0 <= j < i ==> (#[trigger] aliases@[j])@ != name@,
        decreases aliases.len() - i,
    {
        if crate::text::text_eq(aliases[i].as_str(), name) {
            return Some(i);
        }
        i = i + 1;
    }
    assert(!texts(aliases@).contains(name@)) by {
        if texts(aliases@).contains(name@) {
            let k = choose|k: int| 0 <= k < texts(aliases@).len() && texts(aliases@)[k] == name@;
            assert(aliases@[k]@ == name@);
        }
    }
    None
}

/// Adds a new alias in order.
fn insert_alias(
    aliases: &mut Vec<String>,
    targets: &mut Vec<TargetId>,
    alias: String,
    target: TargetId,
    Ghost(map): Ghost<Map<Seq<char>, IdView>>,
)
    requires
        lists_map(texts(old(aliases)@), crate::model::ids(old(targets)@), map),
        !map.contains_key(alias@),
    ensures
        lists_map(texts(final(aliases)@), crate::model::ids(final(targets)@), map.insert(alias@, target@)),
{
    let ghost a = texts(aliases@);
    let ghost t = crate::model::ids(targets@);
    let mut i: usize = 0;
    while i < aliases.len() && crate::text::text_less(aliases[i].as_str(), alias.as_str())
        invariant
            i <= aliases.len(),
            texts(aliases@) == a,
            crate::model::texts_sorted(a),
            forall|j: int| 0 <= j < i ==> crate::text::text_lt(#[trigger] a[j], alias@),
        decreases aliases.len() - i,
    {
        assert(a[i as int] == aliases@[i as int]@);
        i = i + 1;
    }
    proof {
        assert(!a.contains(alias@)) by {
            assert(!map.dom().contains(alias@));
        }
        if i < a.len() {
            assert(a[i as int] == aliases@[i as int]@);
            if a[i as int] != alias@ {
                crate::order::lemma_text_lt_total(alias@, a[i as int]);
            } else {
                assert(a.contains(alias@));
            }
        }
        crate::model::lemma_insert_keeps_texts_sorted(a, i as int, alias@);
    }
    let ghost av = alias@;
    let ghost tv = target@;
    aliases.insert(i, alias);
    targets.insert(i, target);
    proof {
        assert(texts(aliases@) =~= a.insert(i as int, av));
        assert(crate::model::ids(targets@) =~= t.insert(i as int, tv));
        let na = a.insert(i as int, av);
        let nt = t.insert(i as int, tv);
        let nm = map.insert(av, tv);
        assert(nm.dom() =~= na.to_set()) by {
            assert forall|x: Seq<char>| nm.dom().contains(x) <==> na.to_set().contains(x) by {
                if map.dom().contains(x) {
                    assert(a.to_set().contains(x));
                    let k = choose|k: int| 0 <= k < a.len() && a[k] == x;
                    if k < i {
                        assert(na[k] == x);
                    } else {
                        assert(na[k + 1] == x);
                    }
                }
                if x == av {
                    assert(na[i as int] == x);
                }
                if na.to_set().contains(x) {
                    let k = choose|k: int| 0 <= k < na.len() && na[k] == x;
                    if k < i {
                        assert(a[k] == x);
                        assert(a.to_set().contains(x));
                    } else if k > i {
                        assert(a[k - 1] == x);
                        assert(a.to_set().contains(x));
                    }
                }
            }
        }
        assert forall|k: int| 0 <= k < na.len() implies nm[#[trigger] na[k]] == nt[k] by {
            if k < i {
                assert(na[k] == a[k] && nt[k] == t[k]);
                assert(a[k] != av) by {
                    assert(a.to_set().contains(a[k]));
                }
            } else if k > i {
                assert(na[k] == a[k - 1] && nt[k] == t[k - 1]);
                assert(a[k - 1] != av) by {
                    assert(a.to_set().contains(a[k - 1]));
                }
            }
        }
    }
}

/// Resolves the imports of a parsed module under their local names.
fn collect_imports(
    parsed: &Vec<ParsedModule>,
    pm: &ParsedModule,
    file: &str,
    diagnostics: &mut Vec<AnalysisDiagnostic>,
) -> (r: (Vec<String>, Vec<TargetId>))
    requires
        crate::model::paths_sorted(parsed_namespaces(parsed_views(parsed@))),
    ensures
        ({
            let iv = imports_after(parsed_views(parsed@), pm@, file@, pm@.includes.len());
            &&& lists_map(texts(r.0@), crate::model::ids(r.1@), iv.map)
            &&& analysis_views(final(diagnostics)@) == analysis_views(old(diagnostics)@) + iv.diags
        }),
{
    let ghost pv = parsed_views(parsed@);
    let ghost d0 = analysis_views(diagnostics@);
    let mut aliases: Vec<String> = Vec::new();
    let mut targets: Vec<TargetId> = Vec::new();
    let includes = pm.includes();
    proof {
        assert(texts(aliases@) =~= seq![]);
        assert(crate::model::ids(targets@) =~= seq![]);
        assert(Map::<Seq<char>, IdView>::empty().dom() =~= texts(aliases@).to_set());
    }
    let mut j: usize = 0;
    while j < includes.len()
        invariant
            j <= includes.len(),
            pv == parsed_views(parsed@),
            crate::model::paths_sorted(parsed_namespaces(pv)),
            crate::parser::import_views(includes@) == pm@.includes,
            lists_map(texts(aliases@), crate::model::ids(targets@), imports_after(pv, pm@, file@, j as nat).map),
            analysis_views(diagnostics@) == d0 + imports_after(pv, pm@, file@, j as nat).diags,
        decreases includes.len() - j,
    {
        let ghost prev = imports_after(pv, pm@, file@, j as nat);
        let ghost inc = pm@.includes[j as int];
        assert(inc == includes@[j as int]@);
        let ghost dj = analysis_views(diagnostics@);
        let import = &includes[j];
        match resolve_path(pm.namespace(), import.target(), file, diagnostics) {
            None => {
                assert(analysis_views(diagnostics@) =~= d0 + (prev.diags + resolution_diags(pm@.namespace, inc.target, file@)));
            },
            Some(target) => {
                let line = import.target().line();
                if check_import(parsed, &target, line, file, diagnostics) {
                    let alias = match import.alias() {
                        Some(a) => owned(a),
                        None => owned(target.name()),
                    };
                    assert(alias@ == import_alias(inc, target@));
                    let clash = declares_name(pm, alias.as_str());
                    match find_alias(&aliases, alias.as_str()) {
                        Some(k) => {
                            proof {
                                assert(texts(aliases@)[k as int] == alias@);
                                assert(prev.map.contains_key(alias@)) by {
                                    assert(texts(aliases@).to_set().contains(alias@));
                                }
                            }
                            if clash || !targets[k].same(&target) {
                                let mut message = owned("import name `");
                                push_str(&mut message, alias.as_str());
                                push_str(&mut message, "` is ambiguous; choose a unique `as` alias");
                                let d = AnalysisDiagnostic::error(file, Some(line), "P003", message);
                                diagnostics.push(d);
                                assert(analysis_views(diagnostics@) =~= dj.push(d@));
                            }
                        },
                        None => {
                            proof {
                                assert(!prev.map.contains_key(alias@)) by {
                                    assert(!texts(aliases@).to_set().contains(alias@));
                                }
                            }
                            if clash {
                                let mut message = owned("import name `");
                                push_str(&mut message, alias.as_str());
                                push_str(&mut message, "` is ambiguous; choose a unique `as` alias");
                                let d = AnalysisDiagnostic::error(file, Some(line), "P003", message);
                                diagnostics.push(d);
                                assert(analysis_views(diagnostics@) =~= dj.push(d@));
                            } else {
                                insert_alias(&mut aliases, &mut targets, alias, target, Ghost(prev.map));
                            }
                        },
                    }
                } else {
                    proof {
                        if import_check(pv, target@) is Missing {
                            assert(analysis_views(diagnostics@) =~= dj);
                        } else {
                            assert(analysis_views(diagnostics@) =~= dj.push(file_error(file@, Some(line as nat), import_check(pv, target@)->Fail_0, import_check(pv, target@)->Fail_1)));
                        }
                    }
                }
            },
        }
        j = j + 1;
    }
    (aliases, targets)
}

/// The dependencies of a target and the diagnostics found resolving them.
pub struct DepsView {
    pub deps: Seq<IdView>,
    pub diags: Seq<AnalysisDiagView>,
}

/// What a dependency name of `pm` stands for: a local target, else an
/// import.
pub open spec fn dependency_target(pm: ParsedModuleView, map: Map<Seq<char>, IdView>, name: Seq<char>) -> Option<IdView> {
    if declares(pm, name) {
        Some((pm.namespace, name))
    } else if map.contains_key(name) {
        Some(map[name])
    } else {
        None
    }
}

/// The resolved dependencies, without repeats, of the references `refs` of
/// a target of `pm`.
pub open spec fn deps_after(pm: ParsedModuleView, map: Map<Seq<char>, IdView>, file: Seq<char>, refs: Seq<crate::parser::RefView>) -> DepsView
    decreases refs.len(),
{
    if refs.len() == 0 {
        DepsView { deps: seq![], diags: seq![] }
    } else {
        let prev = deps_after(pm, map, file, refs.drop_last());
        let r = refs.last();
        if r.path.len() == 0 {
            prev
        } else if r.path.len() != 1 {
            DepsView {
                diags: prev.diags.push(file_error(file, Some(r.line), "P004"@, "target dependencies must use a local target or imported alias"@)),
                ..prev
            }
        } else {
            match dependency_target(pm, map, r.path[0]) {
                Some(id) => DepsView {
                    deps: if prev.deps.contains(id) { prev.deps } else { prev.deps.push(id) },
                    ..prev
                },
                None => DepsView {
                    diags: prev.diags.push(file_error(
                        file,
                        Some(r.line),
                        "P005"@,
                        "dependency `"@ + r.path[0] + "` is neither a local target nor an import"@,
                    )),
                    ..prev
                },
            }
        }
    }
}

/// The target built from a parsed target of `pm`, before publication.
pub open spec fn built_target(pm: ParsedModuleView, map: Map<Seq<char>, IdView>, file: Seq<char>, pt: crate::parser::ParsedTargetView) -> crate::model::TargetView {
    crate::model::TargetView {
        id: (pm.namespace, pt.name),
        public: false,
        dependencies: deps_after(pm, map, file, pt.dependencies).deps,
        description: pt.description,
        specifications: pt.specifications,
    }
}

/// Builds the target of a parsed target, resolving its dependencies.
fn build_target(
    pm: &ParsedModule,
    pt: &crate::parser::ParsedTarget,
    aliases: &Vec<String>,
    targets: &Vec<TargetId>,
    file: &str,
    diagnostics: &mut Vec<AnalysisDiagnostic>,
    Ghost(map): Ghost<Map<Seq<char>, IdView>>,
) -> (r: Target)
    requires
        lists_map(texts(aliases@), crate::model::ids(targets@), map),
    ensures
        r@ == built_target(pm@, map, file@, pt@),
        analysis_views(final(diagnostics)@) == analysis_views(old(diagnostics)@) + deps_after(pm@, map, file@, pt@.dependencies).diags,
{
    let mut target = Target::new(pm.namespace().duplicate(), pt.name());
    target.set_description(pt.description());
    let specs = pt.specifications();
    let mut i: usize = 0;
    while i < specs.len()
        invariant
            i <= specs.len(),
            target@.id == (pm@.namespace, pt@.name),
            !target@.public,
            target@.dependencies == Seq::<IdView>::empty(),
            target@.description == pt@.description,
            texts(specs@) == pt@.specifications,
            target@.specifications == pt@.specifications.take(i as int),
        decreases specs.len() - i,
    {
        target.add_specification(Spec::new(specs[i].as_str()));
        assert(pt@.specifications.take(i + 1) =~= pt@.specifications.take(i as int).push(specs@[i as int]@));
        i = i + 1;
    }
    assert(pt@.specifications.take(specs.len() as int) =~= pt@.specifications);
    let ghost d0 = analysis_views(diagnostics@);
    let deps = pt.dependencies();
    let mut k: usize = 0;
    while k < deps.len()
        invariant
            k <= deps.len(),
            lists_map(texts(aliases@), crate::model::ids(targets@), map),
            crate::parser::ref_views(deps@) == pt@.dependencies,
            target@ == (crate::model::TargetView {
                dependencies: deps_after(pm@, map, file@, pt@.dependencies.take(k as int)).deps,
                ..built_target(pm@, map, file@, pt@)
            }),
            analysis_views(diagnostics@) == d0 + deps_after(pm@, map, file@, pt@.dependencies.take(k as int)).diags,
        decreases deps.len() - k,
    {
        let ghost refs = pt@.dependencies.take(k + 1);
        assert(refs.drop_last() =~= pt@.dependencies.take(k as int));
        assert(refs.last() == deps@[k as int]@);
        let ghost dk = analysis_views(diagnostics@);
        let dependency = &deps[k];
        let path = dependency.path();
        let segments = path.segments();
        assert(texts(segments@) == dependency@.path);
        if path.is_empty() {
        } else if segments.len() != 1 {
            let d = AnalysisDiagnostic::error(file, Some(dependency.line()), "P004", owned("target dependencies must use a local target or imported alias"));
            diagnostics.push(d);
            assert(analysis_views(diagnostics@) =~= dk.push(d@));
        } else {
            let name = segments[0].as_str();
            assert(name@ == dependency@.path[0]);
            if declares_name(pm, name) {
                target.add_dependency(TargetId::new(pm.namespace().duplicate(), name));
            } else {
                match find_alias(aliases, name) {
                    Some(a) => {
                        proof {
                            assert(texts(aliases@)[a as int] == name@);
                            assert(texts(aliases@).to_set().contains(name@));
                            assert(crate::model::ids(targets@)[a as int] == targets@[a as int]@);
                        }
                        target.add_dependency(targets[a].duplicate());
                    },
                    None => {
                        proof {
                            assert(!map.contains_key(name@)) by {
                                assert(!texts(aliases@).to_set().contains(name@));
                            }
                        }
                        let mut message = owned("dependency `");
                        push_str(&mut message, name);
                        push_str(&mut message, "` is neither a local target nor an import");
                        let d = AnalysisDiagnostic::error(file, Some(dependency.line()), "P005", message);
                        diagnostics.push(d);
                        assert(analysis_views(diagnostics@) =~= dk.push(d@));
                    },
                }
            }
        }
        k = k + 1;
    }
    assert(pt@.dependencies.take(deps.len() as int) =~= pt@.dependencies);
    target
}

/// The parsed target at `j` is the first of its name.
pub open spec fn first_declared(pm: ParsedModuleView, j: int) -> bool {
    &&& 0 <= j < pm.targets.len()
    &&& forall|x: int| 0 <= x < j ==> (#[trigger] pm.targets[x]).name != pm.targets[j].name
}

/// The diagnostics of building the first `n` parsed targets of `pm`: those
/// of their dependencies, and one for each repeated name.
pub open spec fn target_diags(pm: ParsedModuleView, map: Map<Seq<char>, IdView>, file: Seq<char>, n: nat) -> Seq<AnalysisDiagView>
    decreases n,
{
    if n == 0 || n > pm.targets.len() {
        seq![]
    } else {
        let pt = pm.targets[n - 1];
        target_diags(pm, map, file, (n - 1) as nat) + deps_after(pm, map, file, pt.dependencies).diags
            + if first_declared(pm, n - 1) {
            seq![]
        } else {
            seq![file_error(file, Some(pt.line), "P006"@, "target `"@ + pt.name + "` already exists"@)]
        }
    }
}

/// The diagnostics of the first `n` public declarations of `pm`: one for
/// each name that no target of the file has.
pub open spec fn public_diags(pm: ParsedModuleView, file: Seq<char>, n: nat) -> Seq<AnalysisDiagView>
    decreases n,
{
    if n == 0 || n > pm.public_targets.len() {
        seq![]
    } else {
        let pd = pm.public_targets[n - 1];
        public_diags(pm, file, (n - 1) as nat) + if declares(pm, pd.name) {
            seq![]
        } else {
            seq![file_error(file, Some(pd.line), "P007"@, "target `"@ + pd.name + "` does not exist"@)]
        }
    }
}

/// Some target of `ts` is called `name`.
pub open spec fn has_name(ts: Seq<crate::model::TargetView>, name: Seq<char>) -> bool {
    exists|i: int| 0 <= i < ts.len() && (#[trigger] ts[i]).id.1 == name
}

/// Each target of `ts` is built from the first parsed target of its name
/// among the first `n` of `pm`, and made public as `pm` declares
/// (`published`) or not yet (`!published`).
pub open spec fn built_from(
    ts: Seq<crate::model::TargetView>,
    pm: ParsedModuleView,
    map: Map<Seq<char>, IdView>,
    file: Seq<char>,
    n: int,
    published: bool,
) -> bool {
    forall|i: int| 0 <= i < ts.len() ==> #[trigger] built_item(ts[i], pm, map, file, n, published)
}

/// `t` is built from the first parsed target of its name among the first
/// `n` of `pm`, and made public as `pm` declares (`published`) or not yet.
pub open spec fn built_item(
    t: crate::model::TargetView,
    pm: ParsedModuleView,
    map: Map<Seq<char>, IdView>,
    file: Seq<char>,
    n: int,
    published: bool,
) -> bool {
    exists|j: int| 0 <= j < n && #[trigger] first_declared(pm, j)
        && t == (crate::model::TargetView {
            public: published && publishes(pm, pm.targets[j].name),
            ..built_target(pm, map, file, pm.targets[j])
        })
}

/// Each of the first `n` parsed targets of `pm` has a target of its name in
/// `ts`.
pub open spec fn names_present(ts: Seq<crate::model::TargetView>, pm: ParsedModuleView, n: int) -> bool {
    forall|j: int| 0 <= j < n ==> #[trigger] has_name(ts, pm.targets[j].name)
}

/// A sequence with one more element holds what it held and the new one.
pub proof fn lemma_push_contains<A>(s: Seq<A>, x: A, y: A)
    ensures
        s.push(x).contains(y) <==> s.contains(y) || y == x,
{
    if s.push(x).contains(y) {
        let q = choose|q: int| 0 <= q < s.push(x).len() && s.push(x)[q] == y;
        if q < s.len() {
            assert(s[q] == y);
        }
    }
    if s.contains(y) {
        let q = choose|q: int| 0 <= q < s.len() && s[q] == y;
        assert(s.push(x)[q] == y);
    }
    if y == x {
        assert(s.push(x)[s.len() as int] == y);
    }
}

/// Publishes the targets a parsed module declares public, reporting the
/// declarations that name no target.
#[verifier::spinoff_prover]
#[verifier::rlimit(40)]
fn publish_all(
    module: &mut Module,
    pm: &ParsedModule,
    file: &str,
    diagnostics: &mut Vec<AnalysisDiagnostic>,
    Ghost(map): Ghost<Map<Seq<char>, IdView>>,
)
    requires
        old(module).wf(),
        old(module)@.namespace == pm@.namespace,
        built_from(old(module)@.targets, pm@, map, file@, pm@.targets.len() as int, false),
        names_present(old(module)@.targets, pm@, pm@.targets.len() as int),
    ensures
        final(module).wf(),
        final(module)@.namespace == pm@.namespace,
        final(module)@.includes == old(module)@.includes,
        built_from(final(module)@.targets, pm@, map, file@, pm@.targets.len() as int, true),
        names_present(final(module)@.targets, pm@, pm@.targets.len() as int),
        analysis_views(final(diagnostics)@) == analysis_views(old(diagnostics)@) + public_diags(pm@, file@, pm@.public_targets.len() as nat),
{
    let ghost built = module@.targets;
    assert(crate::model::texts_sorted(crate::model::target_names(built)));
    let ghost includes = module@.includes;
    let ghost d2 = analysis_views(diagnostics@);
    let publics = pm.public_targets();
    assert forall|i: int| 0 <= i < built.len() implies #[trigger] module@.targets[i] == (crate::model::TargetView {
        public: exists|q: int| 0 <= q < 0 && (#[trigger] pm@.public_targets[q]).name == built[i].id.1,
        ..built[i]
    }) by {
        assert(built_item(built[i], pm@, map, file@, pm@.targets.len() as int, false));
        let jj = choose|jj: int| 0 <= jj < pm@.targets.len() && #[trigger] first_declared(pm@, jj)
            && built[i] == (crate::model::TargetView {
            public: false && publishes(pm@, pm@.targets[jj].name),
            ..built_target(pm@, map, file@, pm@.targets[jj])
        });
    }
    let mut k: usize = 0;
    while k < publics.len()
        invariant
            k <= publics.len(),
            crate::parser::public_views(publics@) == pm@.public_targets,
            module.wf(),
            module@.namespace == pm@.namespace,
            module@.includes == includes,
            built_from(built, pm@, map, file@, pm@.targets.len() as int, false),
            names_present(built, pm@, pm@.targets.len() as int),
            crate::model::texts_sorted(crate::model::target_names(built)),
            module@.targets.len() == built.len(),
            forall|i: int| 0 <= i < built.len() ==> #[trigger] module@.targets[i] == (crate::model::TargetView {
                public: exists|q: int| 0 <= q < k && (#[trigger] pm@.public_targets[q]).name == built[i].id.1,
                ..built[i]
            }),
            analysis_views(diagnostics@) == d2 + public_diags(pm@, file@, k as nat),
        decreases publics.len() - k,
    {
        let ghost pd = pm@.public_targets[k as int];
        assert(pd == publics@[k as int]@);
        let ghost old_m = module@;
        let ghost dk = analysis_views(diagnostics@);
        let line = publics[k].line();
        proof {
            assert(crate::model::target_names(old_m.targets) =~= crate::model::target_names(built));
        }
        match module.publish_target(publics[k].name()) {
            Ok(()) => {
                proof {
                    let x = choose|x: int| 0 <= x < old_m.targets.len() && old_m.targets[x].id.1 == pd.name
                        && module@ == (ModuleView {
                        targets: old_m.targets.update(x, crate::model::TargetView { public: true, ..old_m.targets[x] }),
                        ..old_m
                    });
                    assert(built[x].id.1 == pd.name);
                    assert(declares(pm@, pd.name)) by {
                        assert(built_item(built[x], pm@, map, file@, pm@.targets.len() as int, false));
                        let jj = choose|jj: int| 0 <= jj < pm@.targets.len() && #[trigger] first_declared(pm@, jj)
                            && built[x] == (crate::model::TargetView {
                            public: false && publishes(pm@, pm@.targets[jj].name),
                            ..built_target(pm@, map, file@, pm@.targets[jj])
                        });
                        assert(pm@.targets[jj].name == pd.name);
                    }
                    assert forall|i: int| 0 <= i < built.len() implies #[trigger] module@.targets[i] == (crate::model::TargetView {
                        public: exists|q: int| 0 <= q < k + 1 && (#[trigger] pm@.public_targets[q]).name == built[i].id.1,
                        ..built[i]
                    }) by {
                        if i == x {
                            assert(pm@.public_targets[k as int].name == built[i].id.1);
                        } else {
                            assert(built[i].id.1 != pd.name) by {
                                if built[i].id.1 == pd.name {
                                    crate::model::lemma_sorted_names_unique(built, i, x);
                                }
                            }
                            if exists|q: int| 0 <= q < k + 1 && (#[trigger] pm@.public_targets[q]).name == built[i].id.1 {
                                let q = choose|q: int| 0 <= q < k + 1 && (#[trigger] pm@.public_targets[q]).name == built[i].id.1;
                                assert(q < k);
                            }
                        }
                    }
                    assert(public_diags(pm@, file@, (k + 1) as nat) =~= public_diags(pm@, file@, k as nat) + seq![]);
                }
            },
            Err(error) => {
                let message = error.to_string();
                let d = AnalysisDiagnostic::error(file, Some(line), "P007", message);
                diagnostics.push(d);
                proof {
                    assert(!declares(pm@, pd.name)) by {
                        if declares(pm@, pd.name) {
                            let jj = choose|jj: int| 0 <= jj < pm@.targets.len() && (#[trigger] pm@.targets[jj]).name == pd.name;
                            assert(has_name(built, pm@.targets[jj].name));
                            let i = choose|i: int| 0 <= i < built.len() && (#[trigger] built[i]).id.1 == pd.name;
                            assert(old_m.targets[i].id.1 == pd.name);
                        }
                    }
                    assert(analysis_views(diagnostics@) =~= dk.push(d@));
                    assert forall|i: int| 0 <= i < built.len() implies #[trigger] module@.targets[i] == (crate::model::TargetView {
                        public: exists|q: int| 0 <= q < k + 1 && (#[trigger] pm@.public_targets[q]).name == built[i].id.1,
                        ..built[i]
                    }) by {
                        if exists|q: int| 0 <= q < k + 1 && (#[trigger] pm@.public_targets[q]).name == built[i].id.1 {
                            let q = choose|q: int| 0 <= q < k + 1 && (#[trigger] pm@.public_targets[q]).name == built[i].id.1;
                            if q == k {
                                assert(built_item(built[i], pm@, map, file@, pm@.targets.len() as int, false));
                                let jj = choose|jj: int| 0 <= jj < pm@.targets.len() && #[trigger] first_declared(pm@, jj)
                                    && built[i] == (crate::model::TargetView {
                                    public: false && publishes(pm@, pm@.targets[jj].name),
                                    ..built_target(pm@, map, file@, pm@.targets[jj])
                                });
                                assert(pm@.targets[jj].name == pd.name);
                            }
                        }
                    }
                }
            },
        }
        k = k + 1;
    }
    proof {
        let mt = module@.targets;
        assert forall|i: int| 0 <= i < mt.len() implies #[trigger] built_item(mt[i], pm@, map, file@, pm@.targets.len() as int, true) by {
            assert(built_item(built[i], pm@, map, file@, pm@.targets.len() as int, false));
            let jj = choose|jj: int| 0 <= jj < pm@.targets.len() && #[trigger] first_declared(pm@, jj)
                && built[i] == (crate::model::TargetView {
                public: false && publishes(pm@, pm@.targets[jj].name),
                ..built_target(pm@, map, file@, pm@.targets[jj])
            });
            assert(built[i].id.1 == pm@.targets[jj].name);
            assert(mt[i] == (crate::model::TargetView {
                public: true && publishes(pm@, pm@.targets[jj].name),
                ..built_target(pm@, map, file@, pm@.targets[jj])
            }));
        }
        assert forall|x: int| 0 <= x < pm@.targets.len() implies #[trigger] has_name(mt, pm@.targets[x].name) by {
            assert(has_name(built, pm@.targets[x].name));
            let i = choose|i: int| 0 <= i < built.len() && (#[trigger] built[i]).id.1 == pm@.targets[x].name;
            assert(mt[i].id.1 == pm@.targets[x].name);
        }
        assert(built_from(mt, pm@, map, file@, pm@.targets.len() as int, true));
        assert(names_present(mt, pm@, pm@.targets.len() as int));
    }
}

/// The distinct identities of `ts`, each where it first occurs.
pub open spec fn distinct_in_order(ts: Seq<IdView>) -> Seq<IdView>
    decreases ts.len(),
{
    if ts.len() == 0 {
        seq![]
    } else {
        let d = distinct_in_order(ts.drop_last());
        if d.contains(ts.last()) {
            d
        } else {
            d.push(ts.last())
        }
    }
}

/// The names of `map` in ascending order.
pub open spec fn sorted_aliases(map: Map<Seq<char>, IdView>) -> Seq<Seq<char>> {
    choose|a: Seq<Seq<char>>| crate::model::texts_sorted(a) && a.to_set() == map.dom()
}

/// The targets that the imports `map` bring in, in ascending order of their
/// names, each once.
pub open spec fn import_order(map: Map<Seq<char>, IdView>) -> Seq<IdView> {
    distinct_in_order(sorted_aliases(map).map_values(|a: Seq<char>| map[a]))
}

/// `m` is the module built from the parsed module `pm` of `file`: its
/// imports are the accepted imports of the file, and its targets are the
/// first parsed target of each name, with resolved dependencies, public as
/// the file declares.
pub open spec fn module_built(parsed: Seq<ParsedModuleView>, pm: ParsedModuleView, file: Seq<char>, m: ModuleView) -> bool {
    let iv = imports_after(parsed, pm, file, pm.includes.len());
    &&& m.namespace == pm.namespace
    &&& forall|id: IdView| m.includes.contains(id) <==> exists|a: Seq<char>| #[trigger] iv.map.contains_key(a) && iv.map[a] == id
    &&& m.includes == import_order(iv.map)
    &&& built_from(m.targets, pm, iv.map, file, pm.targets.len() as int, true)
    &&& names_present(m.targets, pm, pm.targets.len() as int)
}

/// Builds the module of a parsed module: its imports, its targets with
/// resolved dependencies, and its public targets.
#[verifier::spinoff_prover]
#[verifier::rlimit(40)]
fn build_module(
    parsed: &Vec<ParsedModule>,
    pm: &ParsedModule,
    file: &str,
    diagnostics: &mut Vec<AnalysisDiagnostic>,
) -> (m: Module)
    requires
        crate::model::paths_sorted(parsed_namespaces(parsed_views(parsed@))),
    ensures
        m.wf(),
        ({
            let iv = imports_after(parsed_views(parsed@), pm@, file@, pm@.includes.len());
            &&& m@.namespace == pm@.namespace
            &&& forall|id: IdView| m@.includes.contains(id) <==> exists|a: Seq<char>| #[trigger] iv.map.contains_key(a) && iv.map[a] == id
            &&& m@.includes == import_order(iv.map)
            &&& built_from(m@.targets, pm@, iv.map, file@, pm@.targets.len() as int, true)
            &&& names_present(m@.targets, pm@, pm@.targets.len() as int)
            &&& analysis_views(final(diagnostics)@) == analysis_views(old(diagnostics)@) + iv.diags
                + target_diags(pm@, iv.map, file@, pm@.targets.len() as nat)
                + public_diags(pm@, file@, pm@.public_targets.len() as nat)
        }),
{
    let ghost d0 = analysis_views(diagnostics@);
    let ghost iv = imports_after(parsed_views(parsed@), pm@, file@, pm@.includes.len());
    let (aliases, targets) = collect_imports(parsed, pm, file, diagnostics);
    let ghost map = iv.map;
    let ghost d1 = analysis_views(diagnostics@);
    let mut module = Module::new(pm.namespace().duplicate());
    let mut i: usize = 0;
    while i < targets.len()
        invariant
            i <= targets.len(),
            lists_map(texts(aliases@), crate::model::ids(targets@), map),
            module.wf(),
            module@.namespace == pm@.namespace,
            module@.targets == Seq::<crate::model::TargetView>::empty(),
            forall|id: IdView| module@.includes.contains(id) <==> crate::model::ids(targets@).take(i as int).contains(id),
            module@.includes == distinct_in_order(crate::model::ids(targets@).take(i as int)),
        decreases targets.len() - i,
    {
        let ghost before = module@.includes;
        module.add_include(targets[i].duplicate());
        proof {
            let t = crate::model::ids(targets@);
            assert(t[i as int] == targets@[i as int]@);
            assert(t.take(i + 1) =~= t.take(i as int).push(t[i as int]));
            assert(t.take(i + 1).drop_last() =~= t.take(i as int));
            assert forall|id: IdView| module@.includes.contains(id) <==> t.take(i + 1).contains(id) by {
                lemma_push_contains(t.take(i as int), t[i as int], id);
                lemma_push_contains(before, t[i as int], id);
            }
        }
        i = i + 1;
    }
    proof {
        let t = crate::model::ids(targets@);
        assert(t.take(targets.len() as int) =~= t);
        assert forall|id: IdView| t.contains(id) <==> exists|a: Seq<char>| #[trigger] map.contains_key(a) && map[a] == id by {
            if t.contains(id) {
                let q = choose|q: int| 0 <= q < t.len() && t[q] == id;
                let a = texts(aliases@)[q];
                assert(texts(aliases@).to_set().contains(a));
                assert(map.contains_key(a) && map[a] == id);
            }
            if exists|a: Seq<char>| #[trigger] map.contains_key(a) && map[a] == id {
                let a = choose|a: Seq<char>| #[trigger] map.contains_key(a) && map[a] == id;
                assert(texts(aliases@).to_set().contains(a));
                let q = choose|q: int| 0 <= q < texts(aliases@).len() && texts(aliases@)[q] == a;
                assert(t[q] == id);
            }
        }
    }
    proof {
        let al = texts(aliases@);
        let sa = sorted_aliases(map);
        assert(crate::model::texts_sorted(al) && al.to_set() == map.dom());
        assert(crate::model::texts_sorted(sa) && sa.to_set() == map.dom());
        assert forall|x: Seq<char>| al.contains(x) <==> sa.contains(x) by {
            assert(al.to_set().contains(x) <==> al.contains(x));
            assert(sa.to_set().contains(x) <==> sa.contains(x));
        }
        lemma_sorted_texts_equal(al, sa);
        assert(sa.map_values(|a: Seq<char>| map[a]) =~= crate::model::ids(targets@));
    }
    let ghost includes = module@.includes;
    assert(forall|id: IdView| includes.contains(id) <==> exists|a: Seq<char>| #[trigger] map.contains_key(a) && map[a] == id);
    let parsed_targets = pm.targets();
    let mut j: usize = 0;
    while j < parsed_targets.len()
        invariant
            j <= parsed_targets.len(),
            lists_map(texts(aliases@), crate::model::ids(targets@), map),
            crate::parser::parsed_target_views(parsed_targets@) == pm@.targets,
            module.wf(),
            module@.namespace == pm@.namespace,
            module@.includes == includes,
            built_from(module@.targets, pm@, map, file@, j as int, false),
            names_present(module@.targets, pm@, j as int),
            analysis_views(diagnostics@) == d1 + target_diags(pm@, map, file@, j as nat),
            d1 == d0 + iv.diags,
            map == iv.map,
            forall|id: IdView| includes.contains(id) <==> exists|a: Seq<char>| #[trigger] map.contains_key(a) && map[a] == id,
        decreases parsed_targets.len() - j,
    {
        let ghost pt = pm@.targets[j as int];
        assert(pt == parsed_targets@[j as int]@);
        let target = build_target(pm, &parsed_targets[j], &aliases, &targets, file, diagnostics, Ghost(map));
        let ghost dj = analysis_views(diagnostics@);
        let ghost old_m = module@;
        let line = parsed_targets[j].line();
        proof {
            assert(has_name(old_m.targets, pt.name) <==> !first_declared(pm@, j as int)) by {
                if has_name(old_m.targets, pt.name) {
                    let i = choose|i: int| 0 <= i < old_m.targets.len() && (#[trigger] old_m.targets[i]).id.1 == pt.name;
                    assert(built_item(old_m.targets[i], pm@, map, file@, j as int, false));
                    let x = choose|x: int| 0 <= x < j && #[trigger] first_declared(pm@, x) && old_m.targets[i] == (crate::model::TargetView {
                        public: false && publishes(pm@, pm@.targets[x].name),
                        ..built_target(pm@, map, file@, pm@.targets[x])
                    });
                    assert(pm@.targets[x].name == pt.name);
                }
                if !first_declared(pm@, j as int) {
                    let x = choose|x: int| 0 <= x < j && (#[trigger] pm@.targets[x]).name == pm@.targets[j as int].name;
                    assert(has_name(old_m.targets, pm@.targets[x].name));
                }
            }
            assert(crate::model::target_named(old_m, pt.name) is Some <==> has_name(old_m.targets, pt.name));
        }
        match module.add_target(target) {
            Ok(()) => {
                proof {
                    let p = choose|p: int| 0 <= p <= old_m.targets.len() && module@ == (ModuleView {
                        targets: old_m.targets.insert(p, built_target(pm@, map, file@, pt)),
                        ..old_m
                    });
                    let nt = module@.targets;
                    assert forall|i: int| 0 <= i < nt.len() implies #[trigger] built_item(nt[i], pm@, map, file@, j + 1, false) by {
                        if i == p {
                            assert(nt[i] == (crate::model::TargetView {
                                public: false && publishes(pm@, pm@.targets[j as int].name),
                                ..built_target(pm@, map, file@, pm@.targets[j as int])
                            }));
                            assert(first_declared(pm@, j as int));
                        } else {
                            let oi = if i < p { i } else { i - 1 };
                            assert(nt[i] == old_m.targets[oi]);
                            assert(built_item(old_m.targets[oi], pm@, map, file@, j as int, false));
                            let x = choose|x: int| 0 <= x < j && #[trigger] first_declared(pm@, x) && old_m.targets[oi] == (crate::model::TargetView {
                                public: false && publishes(pm@, pm@.targets[x].name),
                                ..built_target(pm@, map, file@, pm@.targets[x])
                            });
                            assert(first_declared(pm@, x));
                        }
                    }
                    assert forall|x: int| 0 <= x < j + 1 implies #[trigger] has_name(nt, pm@.targets[x].name) by {
                        if x == j {
                            assert(nt[p].id.1 == pm@.targets[x].name);
                        } else {
                            assert(has_name(old_m.targets, pm@.targets[x].name));
                            let i = choose|i: int| 0 <= i < old_m.targets.len() && (#[trigger] old_m.targets[i]).id.1 == pm@.targets[x].name;
                            let ni = if i < p { i } else { i + 1 };
                            assert(nt[ni] == old_m.targets[i]);
                        }
                    }
                    assert(target_diags(pm@, map, file@, (j + 1) as nat) =~= target_diags(pm@, map, file@, j as nat)
                        + deps_after(pm@, map, file@, pt.dependencies).diags + seq![]);
                }
            },
            Err(error) => {
                let message = error.to_string();
                let d = AnalysisDiagnostic::error(file, Some(line), "P006", message);
                diagnostics.push(d);
                proof {
                    assert(analysis_views(diagnostics@) =~= dj.push(d@));
                    assert forall|i: int| 0 <= i < module@.targets.len() implies #[trigger] built_item(module@.targets[i], pm@, map, file@, j + 1, false) by {
                        assert(built_item(old_m.targets[i], pm@, map, file@, j as int, false));
                        let x = choose|x: int| 0 <= x < j && #[trigger] first_declared(pm@, x) && old_m.targets[i] == (crate::model::TargetView {
                            public: false && publishes(pm@, pm@.targets[x].name),
                            ..built_target(pm@, map, file@, pm@.targets[x])
                        });
                        assert(first_declared(pm@, x));
                    }
                    assert forall|x: int| 0 <= x < j + 1 implies #[trigger] has_name(module@.targets, pm@.targets[x].name) by {
                        if x == j {
                            assert(has_name(old_m.targets, pt.name));
                        }
                    }
                }
            },
        }
        j = j + 1;
    }
    assert(pm@.targets.len() == parsed_targets@.len());
    let ghost d2 = analysis_views(diagnostics@);
    publish_all(&mut module, pm, file, diagnostics, Ghost(map));
    assert(analysis_views(diagnostics@) == d0 + iv.diags + target_diags(pm@, iv.map, file@, pm@.targets.len() as nat)
        + public_diags(pm@, file@, pm@.public_targets.len() as nat));
    module
}

/// `after` is `before` followed by dependency cycle errors only.
pub open spec fn cycles_appended(before: Seq<AnalysisDiagView>, after: Seq<AnalysisDiagView>) -> bool {
    &&& before.len() <= after.len()
    &&& after.take(before.len() as int) == before
    &&& forall|i: int| before.len() <= i < after.len() ==> (#[trigger] after[i]).error && after[i].code == "P014"@
}

/// The visit states of targets: `keys[i]` is being visited while
/// `complete[i]` is false and is done once it is true.
pub open spec fn visit_wf(keys: Seq<TargetId>, complete: Seq<bool>) -> bool {
    keys.len() == complete.len()
}

/// The number of targets of `p` that were not visited yet.
pub open spec fn unvisited(p: ProjectView, keys: Seq<TargetId>) -> nat {
    crate::graph::project_ids(p).difference(crate::model::ids(keys).to_set()).len()
}

/// Where `x` first occurs in `s`, or -1 where it does not.
pub open spec fn position_of(s: Seq<IdView>, x: IdView) -> int
    decreases s.len(),
{
    if s.len() == 0 {
        -1
    } else if s[0] == x {
        0
    } else {
        let r = position_of(s.drop_first(), x);
        if r < 0 {
            -1
        } else {
            r + 1
        }
    }
}

/// The first occurrence found by a scan is `position_of`.
proof fn lemma_position_of(s: Seq<IdView>, x: IdView, i: int)
    requires
        0 <= i <= s.len(),
        forall|j: int| 0 <= j < i ==> s[j] != x,
        i < s.len() ==> s[i] == x,
    ensures
        position_of(s, x) == if i < s.len() { i } else { -1 },
    decreases s.len(),
{
    if s.len() > 0 && i > 0 {
        assert(s[0] != x);
        assert forall|j: int| 0 <= j < i - 1 implies s.drop_first()[j] != x by {
            assert(s.drop_first()[j] == s[j + 1]);
        }
        if i < s.len() {
            assert(s.drop_first()[i - 1] == s[i]);
        }
        lemma_position_of(s.drop_first(), x, i - 1);
    }
}

/// The error reporting that a depth-first search met `t` again while it
/// was still being visited, with the path `stack` leading to it: the cycle
/// runs from the first visit of `t` on the path back to `t`.
pub open spec fn cycle_report(root_file: Seq<char>, stack: Seq<IdView>, t: IdView) -> AnalysisDiagView {
    let at = position_of(stack, t);
    let start = if at < 0 { 0 } else { at };
    file_error(
        module_file_path(root_file, t.0),
        None,
        "P014"@,
        cycle_text(stack.subrange(start, stack.len() as int).push(t)),
    )
}

/// The state of the cycle search: the targets met so far in the order they
/// were met, whether each is done, and the diagnostics so far.
pub struct SearchView {
    pub keys: Seq<IdView>,
    pub complete: Seq<bool>,
    pub diags: Seq<AnalysisDiagView>,
}

/// The dependencies of each target of `p`, or `None` for an identity that
/// names no target.
pub open spec fn project_deps(p: ProjectView) -> spec_fn(IdView) -> Option<Seq<IdView>> {
    |id: IdView| match project_target(p, id) {
        Some(t) => Some(t.dependencies),
        None => None,
    }
}

/// A depth-first visit of `t` with the path `stack` leading to it: a target
/// met before is left alone when it is done and reported as closing a cycle
/// while it is still being visited; a new target is marked, its
/// dependencies are visited in order, and it is then done. `fuel` bounds the
/// depth of the search.
pub open spec fn visit_spec(
    deps_of: spec_fn(IdView) -> Option<Seq<IdView>>,
    root_file: Seq<char>,
    fuel: nat,
    t: IdView,
    stack: Seq<IdView>,
    s: SearchView,
) -> SearchView
    decreases fuel, 0nat,
{
    let at = position_of(s.keys, t);
    if at >= 0 {
        if s.complete[at] {
            s
        } else {
            SearchView { diags: s.diags.push(cycle_report(root_file, stack, t)), ..s }
        }
    } else if fuel == 0 {
        s
    } else {
        let s1 = SearchView { keys: s.keys.push(t), complete: s.complete.push(false), diags: s.diags };
        let s2 = match deps_of(t) {
            Some(deps) => deps_spec(deps_of, root_file, (fuel - 1) as nat, deps, stack.push(t), s1),
            None => s1,
        };
        SearchView { complete: s2.complete.update(s.keys.len() as int, true), ..s2 }
    }
}

/// Visits the targets `rest` one after another, as `visit_spec` does.
pub open spec fn deps_spec(
    deps_of: spec_fn(IdView) -> Option<Seq<IdView>>,
    root_file: Seq<char>,
    fuel: nat,
    rest: Seq<IdView>,
    stack: Seq<IdView>,
    s: SearchView,
) -> SearchView
    decreases fuel, rest.len() + 1,
{
    if rest.len() == 0 {
        s
    } else {
        deps_spec(deps_of, root_file, fuel, rest.drop_first(), stack, visit_spec(deps_of, root_file, fuel, rest[0], stack, s))
    }
}

/// The identities of the targets of `ms`, module after module, each module's
/// in its order.
pub open spec fn target_ids_of(ms: Seq<ModuleView>) -> Seq<IdView>
    decreases ms.len(),
{
    if ms.len() == 0 {
        seq![]
    } else {
        target_ids_of(ms.drop_last()) + target_id_list(ms.last().targets)
    }
}

/// The identities of a list of targets.
pub open spec fn target_id_list(ts: Seq<crate::model::TargetView>) -> Seq<IdView> {
    ts.map_values(|t: crate::model::TargetView| t.id)
}

/// Visits the targets `ts` one after another from an empty path.
pub open spec fn search_from(
    deps_of: spec_fn(IdView) -> Option<Seq<IdView>>,
    root_file: Seq<char>,
    fuel: nat,
    ts: Seq<IdView>,
    s: SearchView,
) -> SearchView
    decreases ts.len(),
{
    if ts.len() == 0 {
        s
    } else {
        visit_spec(deps_of, root_file, fuel, ts.last(), seq![], search_from(deps_of, root_file, fuel, ts.drop_last(), s))
    }
}

/// The diagnostics after the cycle search over every target of `p`, module
/// after module, starting from the diagnostics `d0`: one dependency cycle
/// error for each dependency found leading back to a target still being
/// visited.
pub open spec fn cycle_search(p: ProjectView, root_file: Seq<char>, d0: Seq<AnalysisDiagView>) -> Seq<AnalysisDiagView> {
    search_from(
        project_deps(p),
        root_file,
        crate::graph::project_ids(p).len() + 1,
        target_ids_of(p.modules),
        SearchView { keys: seq![], complete: seq![], diags: d0 },
    ).diags
}

/// The position of `id` among the visited targets.
fn visit_position(keys: &Vec<TargetId>, id: &TargetId) -> (r: Option<usize>)
    ensures
        match r {
            Some(i) => i < keys@.len() && keys@[i as int]@ == id@ && position_of(crate::model::ids(keys@), id@) == i,
            None => !crate::model::ids(keys@).contains(id@) && position_of(crate::model::ids(keys@), id@) == -1,
        },
{
    let mut i: usize = 0;
    while i < keys.len()
        invariant
            i <= keys.len(),
            forall|j: int| 0 <= j < i ==> (#[trigger] keys@[j])@ != id@,
        decreases keys.len() - i,
    {
        if keys[i].same(id) {
            proof {
                lemma_position_of(crate::model::ids(keys@), id@, i as int);
            }
            return Some(i);
        }
        i = i + 1;
    }
    proof {
        lemma_position_of(crate::model::ids(keys@), id@, keys@.len() as int);
    }
    assert(!crate::model::ids(keys@).contains(id@)) by {
        if crate::model::ids(keys@).contains(id@) {
            let k = choose|k: int| 0 <= k < crate::model::ids(keys@).len() && crate::model::ids(keys@)[k] == id@;
            assert(keys@[k]@ == id@);
        }
    }
    None
}

/// The message for a dependency cycle through the targets `cycle`.
pub open spec fn cycle_text(cycle: Seq<IdView>) -> Seq<char> {
    "dependency cycle: "@ + join(cycle.map_values(|id: IdView| id_text(id)), " -> "@)
}

/// The text of a dependency cycle, `a -> b -> a`.
fn cycle_message(cycle: &Vec<TargetId>) -> (r: String)
    ensures
        r@ == cycle_text(crate::model::ids(cycle@)),
{
    let ghost names = crate::model::ids(cycle@).map_values(|id: IdView| id_text(id));
    let mut message = owned("dependency cycle: ");
    let ghost head = message@;
    let mut i: usize = 0;
    while i < cycle.len()
        invariant
            i <= cycle.len(),
            names == crate::model::ids(cycle@).map_values(|id: IdView| id_text(id)),
            message@ == head + join(names.take(i as int), " -> "@),
        decreases cycle.len() - i,
    {
        if i > 0 {
            push_str(&mut message, " -> ");
        }
        let text = cycle[i].to_string();
        push_str(&mut message, text.as_str());
        proof {
            assert(names[i as int] == text@);
            assert(names.take(i + 1).drop_last() =~= names.take(i as int));
            assert(names.take(i + 1).last() == names[i as int]);
            if i == 0 {
                assert(names.take(1) =~= seq![names[0]]);
            }
        }
        i = i + 1;
    }
    assert(names.take(cycle.len() as int) =~= names);
    message
}

/// `rank` falls along every dependency of a target of `p`.
pub open spec fn ranks_dependencies(p: ProjectView, rank: spec_fn(IdView) -> nat) -> bool {
    forall|id: IdView, d: IdView|
        project_target(p, id) is Some && #[trigger] project_target(p, id)->0.dependencies.contains(d) ==> rank(d) < rank(id)
}

/// No dependency of `p` leads in a cycle: some rank falls along every
/// dependency.
pub open spec fn acyclic(p: ProjectView) -> bool {
    exists|rank: spec_fn(IdView) -> nat| ranks_dependencies(p, rank)
}

/// Every target still being visited is on the stack.
pub open spec fn active_on_stack(keys: Seq<TargetId>, complete: Seq<bool>, stack: Seq<TargetId>) -> bool {
    forall|k: int| 0 <= k < keys.len() && k < complete.len() && !complete[k] ==> crate::model::ids(stack).contains(#[trigger] keys[k]@)
}

/// Every visited target that is done is in `fin`, the order in which
/// targets were done.
pub open spec fn done_in(keys: Seq<TargetId>, complete: Seq<bool>, fin: Seq<IdView>) -> bool {
    forall|k: int| 0 <= k < keys.len() && k < complete.len() && #[trigger] complete[k] ==> fin.contains(keys[k]@)
}

/// Each target of `p` in `fin` comes after all its dependencies.
pub open spec fn finish_ordered(p: ProjectView, fin: Seq<IdView>) -> bool {
    forall|a: int, d: IdView|
        0 <= a < fin.len() && project_target(p, fin[a]) is Some && #[trigger] project_target(p, fin[a])->0.dependencies.contains(d)
            ==> fin.take(a).contains(d)
}

/// The position at which `x` was done first.
pub open spec fn finish_rank(fin: Seq<IdView>, x: IdView) -> nat {
    match crate::workspace::first_where(fin, |y: IdView| y == x) {
        Some(i) => i as nat,
        None => 0,
    }
}

/// When every target of `p` was done after its dependencies, the order in
/// which they were done falls along every dependency.
proof fn lemma_finish_order_ranks(p: ProjectView, fin: Seq<IdView>)
    requires
        finish_ordered(p, fin),
        forall|t: IdView| project_target(p, t) is Some ==> #[trigger] fin.contains(t),
    ensures
        ranks_dependencies(p, |x: IdView| finish_rank(fin, x)),
{
    let rank = |x: IdView| finish_rank(fin, x);
    assert forall|id: IdView, d: IdView|
        project_target(p, id) is Some && #[trigger] project_target(p, id)->0.dependencies.contains(d) implies rank(d) < rank(id) by {
        assert(fin.contains(id));
        let is_id = |y: IdView| y == id;
        let is_d = |y: IdView| y == d;
        crate::workspace::lemma_first_where_some(fin, is_id);
        let a = crate::workspace::first_where(fin, is_id)->0;
        assert(fin[a] == id);
        assert(project_target(p, fin[a])->0.dependencies.contains(d));
        assert(fin.take(a).contains(d));
        let b = choose|b: int| 0 <= b < fin.take(a).len() && fin.take(a)[b] == d;
        assert(fin[b] == d);
        crate::workspace::lemma_first_where_some(fin, is_d);
        let c = crate::workspace::first_where(fin, is_d)->0;
        assert(c <= b) by {
            if c > b {
                assert(!is_d(fin[b]));
            }
        }
    }
}

/// A target of a project is listed among the targets of one of its modules.
proof fn lemma_target_listed(p: ProjectView, id: IdView)
    requires
        project_wf(p),
        project_target(p, id) is Some,
    ensures
        exists|i: int, j: int| 0 <= i < p.modules.len() && 0 <= j < p.modules[i].targets.len() && #[trigger] p.modules[i].targets[j].id == id,
{
    let i = choose|i: int| 0 <= i < p.modules.len() && (#[trigger] p.modules[i]).namespace == id.0;
    let m = p.modules[i];
    assert(crate::model::module_at(p, id.0) == Some(m));
    let j = choose|j: int| 0 <= j < m.targets.len() && (#[trigger] m.targets[j]).id.1 == id.1;
    assert(crate::model::target_named(m, id.1) == Some(m.targets[j]));
    assert(crate::model::module_wf(m));
    assert(m.targets[j].id.0 == m.namespace);
    assert(p.modules[i].targets[j].id == id);
}

/// Visits a target depth first and reports each dependency that leads back
/// to a target still being visited. Targets already visited keep their
/// state, and the targets visited now are done when it returns, in the
/// order `fin` records. When `rank` falls along every dependency
/// (`ranked`), nothing is reported; when nothing is reported, every target
/// done now was done after its dependencies.
fn visit_target(
    analyzer: &ProjectAnalyzer,
    project: &Project,
    target_id: &TargetId,
    keys: &mut Vec<TargetId>,
    complete: &mut Vec<bool>,
    stack: &mut Vec<TargetId>,
    diagnostics: &mut Vec<AnalysisDiagnostic>,
    rank: Ghost<spec_fn(IdView) -> nat>,
    ranked: Ghost<bool>,
    fin: Ghost<Seq<IdView>>,
    depth: Ghost<nat>,
) -> (out: Ghost<Seq<IdView>>)
    requires
        project.wf(),
        depth@ > unvisited(project@, old(keys)@),
        visit_wf(old(keys)@, old(complete)@),
        done_in(old(keys)@, old(complete)@, fin@),
        ranked@ ==> ranks_dependencies(project@, rank@),
        ranked@ ==> active_on_stack(old(keys)@, old(complete)@, old(stack)@),
        ranked@ ==> forall|x: IdView| crate::model::ids(old(stack)@).contains(x) ==> rank@(target_id@) < rank@(x),
    ensures
        visit_wf(final(keys)@, final(complete)@),
        final(keys)@.len() >= old(keys)@.len(),
        final(keys)@.take(old(keys)@.len() as int) == old(keys)@,
        final(complete)@.take(old(complete)@.len() as int) == old(complete)@,
        forall|k: int| old(complete)@.len() <= k < final(complete)@.len() ==> #[trigger] final(complete)@[k],
        forall|x: IdView| crate::model::ids(old(keys)@).contains(x) ==> #[trigger] crate::model::ids(final(keys)@).contains(x),
        crate::model::ids(final(keys)@).contains(target_id@),
        final(stack)@ == old(stack)@,
        cycles_appended(analysis_views(old(diagnostics)@), analysis_views(final(diagnostics)@)),
        ranked@ ==> analysis_views(final(diagnostics)@) == analysis_views(old(diagnostics)@),
        done_in(final(keys)@, final(complete)@, out@),
        forall|x: IdView| fin@.contains(x) ==> #[trigger] out@.contains(x),
        finish_ordered(project@, fin@) && analysis_views(final(diagnostics)@) == analysis_views(old(diagnostics)@)
            ==> finish_ordered(project@, out@) && out@.contains(target_id@),
        (SearchView {
            keys: crate::model::ids(final(keys)@),
            complete: final(complete)@,
            diags: analysis_views(final(diagnostics)@),
        }) == visit_spec(
            project_deps(project@),
            analyzer.root_file_view(),
            depth@,
            target_id@,
            crate::model::ids(old(stack)@),
            SearchView {
                keys: crate::model::ids(old(keys)@),
                complete: old(complete)@,
                diags: analysis_views(old(diagnostics)@),
            },
        ),
    decreases unvisited(project@, old(keys)@), 1nat,
{
    let ghost p = project@;
    let ghost d0 = analysis_views(diagnostics@);
    let ghost kk = keys@;
    let ghost cc = complete@;
    assert(kk.take(kk.len() as int) =~= kk);
    assert(cc.take(cc.len() as int) =~= cc);
    match visit_position(keys, target_id) {
        Some(k) => {
            assert(crate::model::ids(keys@)[k as int] == target_id@);
            if complete[k] {
                assert(analysis_views(diagnostics@).take(d0.len() as int) =~= d0);
                assert(fin@.contains(keys@[k as int]@));
                return fin;
            }
            proof {
                if ranked@ {
                    assert(crate::model::ids(stack@).contains(keys@[k as int]@));
                    assert(rank@(target_id@) < rank@(target_id@));
                }
            }
            let ghost sv = crate::model::ids(stack@);
            let mut s: usize = 0;
            while s < stack.len() && !stack[s].same(target_id)
                invariant
                    s <= stack.len(),
                    sv == crate::model::ids(stack@),
                    forall|j: int| 0 <= j < s ==> sv[j] != target_id@,
                decreases stack.len() - s,
            {
                assert(sv[s as int] == stack@[s as int]@);
                s = s + 1;
            }
            proof {
                if s < stack.len() {
                    assert(sv[s as int] == stack@[s as int]@);
                }
                lemma_position_of(sv, target_id@, s as int);
            }
            let start: usize = if s < stack.len() { s } else { 0 };
            let mut cycle: Vec<TargetId> = Vec::new();
            let mut c: usize = start;
            while c < stack.len()
                invariant
                    start <= c <= stack.len(),
                    sv == crate::model::ids(stack@),
                    crate::model::ids(cycle@) == sv.subrange(start as int, c as int),
                decreases stack.len() - c,
            {
                let ghost before = cycle@;
                cycle.push(stack[c].duplicate());
                proof {
                    assert(crate::model::ids(cycle@) =~= crate::model::ids(before).push(stack@[c as int]@));
                    assert(sv[c as int] == stack@[c as int]@);
                    assert(sv.subrange(start as int, c + 1) =~= sv.subrange(start as int, c as int).push(sv[c as int]));
                }
                c = c + 1;
            }
            let ghost before = cycle@;
            cycle.push(target_id.duplicate());
            assert(crate::model::ids(cycle@) =~= sv.subrange(start as int, sv.len() as int).push(target_id@)) by {
                assert(crate::model::ids(cycle@) =~= crate::model::ids(before).push(target_id@));
            }
            let message = cycle_message(&cycle);
            let file = analyzer.module_file(target_id.namespace());
            let d = AnalysisDiagnostic::error(file.as_str(), None, "P014", message);
            proof {
                reveal_strlit("P014");
                assert(d@ == cycle_report(analyzer.root_file_view(), sv, target_id@));
            }
            diagnostics.push(d);
            assert(analysis_views(diagnostics@) =~= d0.push(d@));
            assert(analysis_views(diagnostics@).take(d0.len() as int) =~= d0);
            return fin;
        },
        None => {},
    }
    let ghost k0 = keys@;
    keys.push(target_id.duplicate());
    complete.push(false);
    let slot = keys.len() - 1;
    let ghost k1 = keys@;
    let ghost c1 = complete@;
    proof {
        assert(crate::model::ids(k1) =~= crate::model::ids(k0).push(target_id@));
        assert forall|x: IdView| crate::model::ids(k0).contains(x) implies #[trigger] crate::model::ids(k1).contains(x) by {
            lemma_push_contains(crate::model::ids(k0), target_id@, x);
        }
        lemma_push_contains(crate::model::ids(k0), target_id@, target_id@);
        assert forall|k: int| 0 <= k < k1.len() && k < c1.len() && #[trigger] c1[k] implies fin@.contains(k1[k]@) by {
            assert(k < k0.len());
            assert(k1[k] == k0[k]);
            assert(c1[k] == cc[k]);
        }
    }
    let ghost s0 = stack@;
    stack.push(target_id.duplicate());
    proof {
        assert(crate::model::ids(stack@) =~= crate::model::ids(s0).push(target_id@));
        if ranked@ {
            assert forall|k: int| 0 <= k < keys@.len() && k < complete@.len() && !complete@[k] implies crate::model::ids(stack@).contains(#[trigger] keys@[k]@) by {
                lemma_push_contains(crate::model::ids(s0), target_id@, keys@[k]@);
                if k < k0.len() {
                    assert(keys@[k] == k0[k]);
                    assert(complete@[k] == cc[k]);
                }
            }
        }
    }
    assert(d0.take(d0.len() as int) =~= d0);
    let ghost mut f = fin@;
    let ghost mut dep_list: Seq<IdView> = seq![];
    let ghost deps_of = project_deps(p);
    let ghost rf = analyzer.root_file_view();
    let ghost st1 = crate::model::ids(s0).push(target_id@);
    let ghost sv1 = SearchView { keys: crate::model::ids(k1), complete: c1, diags: d0 };
    let ghost mut s2v = sv1;
    match crate::compiler::find_target(project, target_id) {
        Some(target) => {
            proof {
                crate::graph::lemma_project_ids(p, target_id@);
                let pids = crate::graph::project_ids(p);
                let before = pids.difference(crate::model::ids(k0).to_set());
                let after = pids.difference(crate::model::ids(k1).to_set());
                assert(after.subset_of(before.remove(target_id@)));
                assert(before.contains(target_id@));
                vstd::set_lib::lemma_len_subset(after, before.remove(target_id@));
            }
            let deps = target.dependencies();
            proof {
                dep_list = target@.dependencies;
            }
            let ghost goal = deps_spec(deps_of, rf, (depth@ - 1) as nat, dep_list, st1, sv1);
            assert(dep_list.subrange(0, dep_list.len() as int) =~= dep_list);
            let mut i: usize = 0;
            while i < deps.len()
                invariant
                    i <= deps.len(),
                    project.wf(),
                    project@ == p,
                    visit_wf(keys@, complete@),
                    keys@.len() >= k1.len(),
                    keys@.take(k1.len() as int) == k1,
                    complete@.take(c1.len() as int) == c1,
                    forall|k: int| c1.len() <= k < complete@.len() ==> #[trigger] complete@[k],
                    forall|x: IdView| crate::model::ids(k1).contains(x) ==> #[trigger] crate::model::ids(keys@).contains(x),
                    stack@.len() == s0.len() + 1,
                    stack@.take(s0.len() as int) == s0,
                    crate::model::ids(stack@) == crate::model::ids(s0).push(target_id@),
                    unvisited(p, keys@) < unvisited(p, old(keys)@),
                    cycles_appended(d0, analysis_views(diagnostics@)),
                    ranked@ ==> analysis_views(diagnostics@) == d0,
                    ranked@ ==> ranks_dependencies(p, rank@),
                    ranked@ ==> active_on_stack(keys@, complete@, stack@),
                    ranked@ ==> forall|x: IdView| crate::model::ids(s0).contains(x) ==> rank@(target_id@) < rank@(x),
                    crate::model::ids(deps@) == target@.dependencies,
                    dep_list == target@.dependencies,
                    project_target(p, target_id@) == Some(target@),
                    slot < keys@.len(),
                    slot == k1.len() - 1,
                    c1.len() == k1.len(),
                    done_in(keys@, complete@, f),
                    forall|x: IdView| fin@.contains(x) ==> #[trigger] f.contains(x),
                    finish_ordered(p, fin@) && analysis_views(diagnostics@) == d0 ==> finish_ordered(p, f)
                        && forall|j: int| 0 <= j < i ==> f.contains(#[trigger] dep_list[j]),
                    depth@ > unvisited(p, old(keys)@),
                    deps_of == project_deps(p),
                    rf == analyzer.root_file_view(),
                    st1 == crate::model::ids(s0).push(target_id@),
                    deps_spec(
                        deps_of,
                        rf,
                        (depth@ - 1) as nat,
                        dep_list.subrange(i as int, dep_list.len() as int),
                        st1,
                        SearchView { keys: crate::model::ids(keys@), complete: complete@, diags: analysis_views(diagnostics@) },
                    ) == goal,
                decreases deps.len() - i,
            {
                let ghost kb = keys@;
                let ghost cb = complete@;
                let ghost db = analysis_views(diagnostics@);
                let ghost fb = f;
                proof {
                    if ranked@ {
                        assert(crate::model::ids(deps@)[i as int] == deps@[i as int]@);
                        assert(target@.dependencies.contains(deps@[i as int]@));
                        assert(project_target(p, target_id@)->0.dependencies.contains(deps@[i as int]@));
                        assert(rank@(deps@[i as int]@) < rank@(target_id@));
                        assert forall|x: IdView| crate::model::ids(stack@).contains(x) implies rank@(deps@[i as int]@) < rank@(x) by {
                            lemma_push_contains(crate::model::ids(s0), target_id@, x);
                        }
                    }
                }
                let ghost cur = SearchView { keys: crate::model::ids(keys@), complete: complete@, diags: analysis_views(diagnostics@) };
                let fo = visit_target(analyzer, project, &deps[i], keys, complete, stack, diagnostics, rank, ranked, Ghost(f), Ghost((depth@ - 1) as nat));
                proof {
                    f = fo@;
                    let rest = dep_list.subrange(i as int, dep_list.len() as int);
                    assert(rest[0] == deps@[i as int]@) by {
                        assert(crate::model::ids(deps@)[i as int] == deps@[i as int]@);
                    }
                    assert(rest.drop_first() =~= dep_list.subrange(i + 1, dep_list.len() as int));
                    crate::graph::lemma_project_ids(p, target_id@);
                    let pids = crate::graph::project_ids(p);
                    let before = pids.difference(crate::model::ids(kb).to_set());
                    let after = pids.difference(crate::model::ids(keys@).to_set());
                    assert(after.subset_of(before));
                    vstd::set_lib::lemma_len_subset(after, before);
                    let dn = analysis_views(diagnostics@);
                    assert(dn.take(d0.len() as int) =~= db.take(d0.len() as int));
                    assert forall|j: int| d0.len() <= j < dn.len() implies (#[trigger] dn[j]).error && dn[j].code == "P014"@ by {
                        if j < db.len() {
                            assert(dn.take(db.len() as int)[j] == db[j]);
                        }
                    }
                    assert(keys@.take(k1.len() as int) =~= keys@.take(kb.len() as int).take(k1.len() as int));
                    assert(complete@.take(c1.len() as int) =~= complete@.take(cb.len() as int).take(c1.len() as int));
                    assert forall|k: int| c1.len() <= k < complete@.len() implies #[trigger] complete@[k] by {
                        if k < cb.len() {
                            assert(complete@.take(cb.len() as int)[k] == cb[k]);
                        }
                    }
                    if ranked@ {
                        assert forall|k: int| 0 <= k < keys@.len() && k < complete@.len() && !complete@[k] implies crate::model::ids(stack@).contains(#[trigger] keys@[k]@) by {
                            assert(k < cb.len());
                            assert(complete@.take(cb.len() as int)[k] == cb[k]);
                            assert(keys@.take(kb.len() as int)[k] == kb[k]);
                        }
                    }
                    if finish_ordered(p, fin@) && dn == d0 {
                        assert(db.len() == d0.len());
                        assert(db =~= d0);
                        assert(crate::model::ids(deps@)[i as int] == deps@[i as int]@);
                        assert forall|j: int| 0 <= j < i + 1 implies f.contains(#[trigger] dep_list[j]) by {
                            if j < i {
                                assert(fb.contains(dep_list[j]));
                            }
                        }
                    }
                }
                i = i + 1;
            }
            proof {
                assert(dep_list.subrange(i as int, dep_list.len() as int) =~= Seq::<IdView>::empty());
                s2v = goal;
            }
        },
        None => {},
    }
    assert((SearchView { keys: crate::model::ids(keys@), complete: complete@, diags: analysis_views(diagnostics@) }) == s2v);
    assert(s2v == match deps_of(target_id@) {
        Some(ds) => deps_spec(deps_of, rf, (depth@ - 1) as nat, ds, st1, sv1),
        None => sv1,
    });
    let ghost sb = stack@;
    stack.pop();
    assert(stack@ =~= s0);
    let ghost cb = complete@;
    if slot < complete.len() {
        complete.set(slot, true);
    }
    let ghost out = f.push(target_id@);
    proof {
        assert(keys@.take(kk.len() as int) =~= keys@.take(k1.len() as int).take(kk.len() as int));
        assert(k1.take(kk.len() as int) =~= kk);
        assert(complete@.take(cc.len() as int) =~= cc) by {
            assert forall|k: int| 0 <= k < cc.len() implies complete@[k] == cc[k] by {
                assert(cb.take(c1.len() as int)[k] == c1[k]);
                assert(c1[k] == cc[k]);
            }
        }
        assert forall|k: int| cc.len() <= k < complete@.len() implies #[trigger] complete@[k] by {
            if k != slot {
                assert(complete@[k] == cb[k]);
            }
        }
        assert forall|x: IdView| f.contains(x) implies #[trigger] out.contains(x) by {
            lemma_push_contains(f, target_id@, x);
        }
        assert forall|k: int| 0 <= k < keys@.len() && k < complete@.len() && #[trigger] complete@[k] implies out.contains(keys@[k]@) by {
            if k == slot {
                assert(keys@.take(k1.len() as int)[k] == k1[k]);
                assert(out[f.len() as int] == target_id@);
            } else {
                assert(cb[k]);
                assert(f.contains(keys@[k]@));
            }
        }
        assert(out[f.len() as int] == target_id@);
        if finish_ordered(p, fin@) && analysis_views(diagnostics@) == d0 {
            assert forall|a: int, d: IdView|
                0 <= a < out.len() && project_target(p, out[a]) is Some && #[trigger] project_target(p, out[a])->0.dependencies.contains(d)
                    implies out.take(a).contains(d) by {
                if a < f.len() {
                    assert(out[a] == f[a]);
                    assert(out.take(a) =~= f.take(a));
                } else {
                    assert(out.take(a) =~= f);
                    assert(out[a] == target_id@);
                    let j = choose|j: int| 0 <= j < dep_list.len() && dep_list[j] == d;
                    assert(f.contains(dep_list[j]));
                }
            }
        }
    }
    Ghost(out)
}

/// Visits every target of the project and reports dependency cycles: it
/// reports some exactly when a dependency leads in a cycle.
fn detect_cycles(analyzer: &ProjectAnalyzer, project: &Project, diagnostics: &mut Vec<AnalysisDiagnostic>)
    requires
        project.wf(),
    ensures
        cycles_appended(analysis_views(old(diagnostics)@), analysis_views(final(diagnostics)@)),
        acyclic(project@) <==> analysis_views(final(diagnostics)@) == analysis_views(old(diagnostics)@),
        analysis_views(final(diagnostics)@) == cycle_search(project@, analyzer.root_file_view(), analysis_views(old(diagnostics)@)),
{
    let ghost p = project@;
    let ghost d0 = analysis_views(diagnostics@);
    let ghost deps_of = project_deps(p);
    let ghost rf = analyzer.root_file_view();
    let ghost fuel: nat = crate::graph::project_ids(p).len() + 1;
    let ghost s0 = SearchView { keys: seq![], complete: seq![], diags: d0 };
    proof {
        crate::graph::lemma_ids_upto_finite(p.modules, p.modules.len());
    }
    let ghost ranked = acyclic(project@);
    let ghost rank = choose|rank: spec_fn(IdView) -> nat| ranks_dependencies(project@, rank);
    let ghost mut fin: Seq<IdView> = seq![];
    let mut keys: Vec<TargetId> = Vec::new();
    let mut complete: Vec<bool> = Vec::new();
    let mut stack: Vec<TargetId> = Vec::new();
    let modules = project.modules();
    assert(d0.take(d0.len() as int) =~= d0);
    assert(p.modules.take(0) =~= Seq::<ModuleView>::empty());
    assert(crate::model::ids(keys@) =~= Seq::<IdView>::empty());
    let mut i: usize = 0;
    while i < modules.len()
        invariant
            i <= modules.len(),
            project.wf(),
            project@ == p,
            crate::model::module_views(modules@) == p.modules,
            visit_wf(keys@, complete@),
            stack@ == Seq::<TargetId>::empty(),
            forall|k: int| 0 <= k < complete@.len() ==> #[trigger] complete@[k],
            cycles_appended(d0, analysis_views(diagnostics@)),
            ranked ==> ranks_dependencies(project@, rank),
            ranked ==> analysis_views(diagnostics@) == d0,
            done_in(keys@, complete@, fin),
            analysis_views(diagnostics@) == d0 ==> finish_ordered(p, fin)
                && forall|x: int, y: int| 0 <= x < i && 0 <= y < p.modules[x].targets.len() ==> fin.contains(#[trigger] p.modules[x].targets[y].id),
            crate::graph::project_ids(p).finite(),
            deps_of == project_deps(p),
            rf == analyzer.root_file_view(),
            fuel == crate::graph::project_ids(p).len() + 1,
            (SearchView { keys: crate::model::ids(keys@), complete: complete@, diags: analysis_views(diagnostics@) })
                == search_from(deps_of, rf, fuel, target_ids_of(p.modules.take(i as int)), s0),
        decreases modules.len() - i,
    {
        let targets = modules[i].targets();
        assert(p.modules[i as int] == modules@[i as int]@);
        assert(target_id_list(p.modules[i as int].targets.take(0)) =~= Seq::<IdView>::empty());
        assert(target_ids_of(p.modules.take(i as int)) + target_id_list(p.modules[i as int].targets.take(0)) =~= target_ids_of(p.modules.take(i as int)));
        let mut j: usize = 0;
        while j < targets.len()
            invariant
                j <= targets.len(),
                i < modules.len(),
                project.wf(),
                project@ == p,
                crate::model::module_views(modules@) == p.modules,
                crate::model::target_views(targets@) == p.modules[i as int].targets,
                visit_wf(keys@, complete@),
                stack@ == Seq::<TargetId>::empty(),
                forall|k: int| 0 <= k < complete@.len() ==> #[trigger] complete@[k],
                cycles_appended(d0, analysis_views(diagnostics@)),
                ranked ==> ranks_dependencies(project@, rank),
                ranked ==> analysis_views(diagnostics@) == d0,
                done_in(keys@, complete@, fin),
                analysis_views(diagnostics@) == d0 ==> finish_ordered(p, fin)
                    && (forall|x: int, y: int| 0 <= x < i && 0 <= y < p.modules[x].targets.len() ==> fin.contains(#[trigger] p.modules[x].targets[y].id))
                    && (forall|y: int| 0 <= y < j ==> fin.contains(#[trigger] p.modules[i as int].targets[y].id)),
                crate::graph::project_ids(p).finite(),
                deps_of == project_deps(p),
                rf == analyzer.root_file_view(),
                fuel == crate::graph::project_ids(p).len() + 1,
                (SearchView { keys: crate::model::ids(keys@), complete: complete@, diags: analysis_views(diagnostics@) })
                    == search_from(
                    deps_of,
                    rf,
                    fuel,
                    target_ids_of(p.modules.take(i as int)) + target_id_list(p.modules[i as int].targets.take(j as int)),
                    s0,
                ),
            decreases targets.len() - j,
        {
            let ghost db = analysis_views(diagnostics@);
            let ghost cb = complete@;
            let ghost fb = fin;
            proof {
                assert(crate::model::ids(stack@) =~= Seq::<IdView>::empty());
                assert(targets@[j as int]@ == p.modules[i as int].targets[j as int]);
            }
            let ghost ts = target_ids_of(p.modules.take(i as int)) + target_id_list(p.modules[i as int].targets.take(j as int));
            proof {
                let pids = crate::graph::project_ids(p);
                vstd::set_lib::lemma_len_subset(pids.difference(crate::model::ids(keys@).to_set()), pids);
            }
            let fo = visit_target(analyzer, project, targets[j].id(), &mut keys, &mut complete, &mut stack, diagnostics, Ghost(rank), Ghost(ranked), Ghost(fin), Ghost(fuel));
            proof {
                fin = fo@;
                let ts1 = target_ids_of(p.modules.take(i as int)) + target_id_list(p.modules[i as int].targets.take(j + 1));
                assert(target_id_list(p.modules[i as int].targets.take(j + 1)) =~= target_id_list(p.modules[i as int].targets.take(j as int)).push(p.modules[i as int].targets[j as int].id));
                assert(ts1 =~= ts.push(p.modules[i as int].targets[j as int].id));
                assert(ts1.drop_last() =~= ts);
                let dn = analysis_views(diagnostics@);
                assert(dn.take(d0.len() as int) =~= dn.take(db.len() as int).take(d0.len() as int));
                assert forall|k: int| d0.len() <= k < dn.len() implies (#[trigger] dn[k]).error && dn[k].code == "P014"@ by {
                    if k < db.len() {
                        assert(dn.take(db.len() as int)[k] == db[k]);
                    }
                }
                assert forall|k: int| 0 <= k < complete@.len() implies #[trigger] complete@[k] by {
                    if k < cb.len() {
                        assert(complete@.take(cb.len() as int)[k] == cb[k]);
                    }
                }
                if dn == d0 {
                    assert(db.len() == d0.len());
                    assert(db =~= d0);
                    assert forall|x: int, y: int| 0 <= x < i && 0 <= y < p.modules[x].targets.len() implies fin.contains(#[trigger] p.modules[x].targets[y].id) by {
                        assert(fb.contains(p.modules[x].targets[y].id));
                    }
                    assert forall|y: int| 0 <= y < j + 1 implies fin.contains(#[trigger] p.modules[i as int].targets[y].id) by {
                        if y < j {
                            assert(fb.contains(p.modules[i as int].targets[y].id));
                        }
                    }
                }
            }
            j = j + 1;
        }
        proof {
            let mi = p.modules.take(i + 1);
            assert(mi.drop_last() =~= p.modules.take(i as int));
            assert(mi.last() == p.modules[i as int]);
            assert(p.modules[i as int].targets.take(targets@.len() as int) =~= p.modules[i as int].targets);
            assert(target_ids_of(mi) == target_ids_of(p.modules.take(i as int)) + target_id_list(p.modules[i as int].targets));
            if analysis_views(diagnostics@) == d0 {
                assert forall|x: int, y: int| 0 <= x < i + 1 && 0 <= y < p.modules[x].targets.len() implies fin.contains(#[trigger] p.modules[x].targets[y].id) by {
                    if x == i {
                        assert(fin.contains(p.modules[i as int].targets[y].id));
                    }
                }
            }
        }
        i = i + 1;
    }
    proof {
        assert(p.modules.take(modules.len() as int) =~= p.modules);
        if analysis_views(diagnostics@) == d0 {
            assert forall|t: IdView| project_target(p, t) is Some implies #[trigger] fin.contains(t) by {
                lemma_target_listed(p, t);
                let (x, y) = choose|x: int, y: int| 0 <= x < p.modules.len() && 0 <= y < p.modules[x].targets.len() && #[trigger] p.modules[x].targets[y].id == t;
                assert(fin.contains(p.modules[x].targets[y].id));
            }
            lemma_finish_order_ranks(p, fin);
            assert(acyclic(p));
        }
    }
}

/// `p` holds one module per parsed module, in the same order, each built
/// from it.
pub open spec fn modules_built(root_file: Seq<char>, parsed: Seq<ParsedModuleView>, p: ProjectView) -> bool {
    &&& p.modules.len() == parsed.len()
    &&& forall|i: int| 0 <= i < parsed.len() ==> module_built(
        parsed,
        parsed[i],
        module_file_path(root_file, parsed[i].namespace),
        #[trigger] p.modules[i],
    )
}

/// A resolved dependency is a target of the module itself or an import.
proof fn lemma_deps_resolved(
    pm: ParsedModuleView,
    map: Map<Seq<char>, IdView>,
    file: Seq<char>,
    refs: Seq<crate::parser::RefView>,
)
    ensures
        forall|d: IdView| #[trigger] deps_after(pm, map, file, refs).deps.contains(d) ==> (d.0 == pm.namespace
            && declares(pm, d.1)) || exists|a: Seq<char>| #[trigger] map.contains_key(a) && map[a] == d,
    decreases refs.len(),
{
    if refs.len() > 0 {
        lemma_deps_resolved(pm, map, file, refs.drop_last());
        let prev = deps_after(pm, map, file, refs.drop_last());
        let r = refs.last();
        if r.path.len() == 1 {
            match dependency_target(pm, map, r.path[0]) {
                Some(id) => {
                    if !prev.deps.contains(id) {
                        assert forall|d: IdView| #[trigger] prev.deps.push(id).contains(d) implies prev.deps.contains(d) || d == id by {
                            lemma_push_contains(prev.deps, id, d);
                        }
                    }
                    if !declares(pm, r.path[0]) {
                        assert(map.contains_key(r.path[0]) && map[r.path[0]] == id);
                    }
                },
                None => {},
            }
        }
    }
}

/// Every import that is kept was accepted.
proof fn lemma_imports_accepted(parsed: Seq<ParsedModuleView>, pm: ParsedModuleView, file: Seq<char>, n: nat)
    ensures
        forall|a: Seq<char>| #[trigger] imports_after(parsed, pm, file, n).map.contains_key(a)
            ==> import_check(parsed, imports_after(parsed, pm, file, n).map[a]) is Accepted,
    decreases n,
{
    if n > 0 && n <= pm.includes.len() {
        lemma_imports_accepted(parsed, pm, file, (n - 1) as nat);
    }
}

/// A target that a loaded module declares is a target of the built
/// project.
proof fn lemma_declared_in_project(root_file: Seq<char>, parsed: Seq<ParsedModuleView>, p: ProjectView, k: int, name: Seq<char>)
    requires
        crate::model::project_wf(p),
        modules_built(root_file, parsed, p),
        0 <= k < parsed.len(),
        declares(parsed[k], name),
    ensures
        project_target(p, (parsed[k].namespace, name)) is Some,
{
    let pm = parsed[k];
    let m = p.modules[k];
    assert(module_built(parsed, pm, module_file_path(root_file, pm.namespace), m));
    let j = choose|j: int| 0 <= j < pm.targets.len() && (#[trigger] pm.targets[j]).name == name;
    assert(has_name(m.targets, pm.targets[j].name));
    let ci = choose|i: int| 0 <= i < p.modules.len() && (#[trigger] p.modules[i]).namespace == pm.namespace;
    assert(p.modules[k].namespace == pm.namespace);
    crate::model::lemma_sorted_paths_unique(p.modules, ci, k);
    assert(module_at(p, pm.namespace) == Some(m));
    let t = choose|t: int| 0 <= t < m.targets.len() && (#[trigger] m.targets[t]).id.1 == name;
    assert(crate::model::target_named(m, name) is Some);
}

/// An accepted import names a target of the built project.
proof fn lemma_accepted_in_project(root_file: Seq<char>, parsed: Seq<ParsedModuleView>, p: ProjectView, id: IdView)
    requires
        crate::model::project_wf(p),
        modules_built(root_file, parsed, p),
        import_check(parsed, id) is Accepted,
    ensures
        project_target(p, id) is Some,
{
    let k = choose|i: int| 0 <= i < parsed.len() && (#[trigger] parsed[i]).namespace == id.0;
    assert(parsed_at(parsed, id.0) == Some(parsed[k]));
    lemma_declared_in_project(root_file, parsed, p, k, id.1);
}

/// In a project built from loaded modules, every dependency and every
/// import names a target of the project.
pub proof fn lemma_built_project_closed(root_file: Seq<char>, parsed: Seq<ParsedModuleView>, p: ProjectView)
    requires
        crate::model::project_wf(p),
        modules_built(root_file, parsed, p),
    ensures
        crate::graph::project_closed(p),
{
    assert forall|i: int, j: int, d: IdView|
        0 <= i < p.modules.len() && 0 <= j < p.modules[i].targets.len()
            && #[trigger] p.modules[i].targets[j].dependencies.contains(d) implies project_target(p, d) is Some by {
        let pm = parsed[i];
        let file = module_file_path(root_file, pm.namespace);
        let m = p.modules[i];
        assert(module_built(parsed, pm, file, m));
        let iv = imports_after(parsed, pm, file, pm.includes.len());
        assert(built_item(m.targets[j], pm, iv.map, file, pm.targets.len() as int, true));
        let jj = choose|jj: int| 0 <= jj < pm.targets.len() as int && #[trigger] first_declared(pm, jj)
            && m.targets[j] == (crate::model::TargetView {
                public: true && publishes(pm, pm.targets[jj].name),
                ..built_target(pm, iv.map, file, pm.targets[jj])
            });
        lemma_deps_resolved(pm, iv.map, file, pm.targets[jj].dependencies);
        assert(deps_after(pm, iv.map, file, pm.targets[jj].dependencies).deps.contains(d));
        if d.0 == pm.namespace && declares(pm, d.1) {
            lemma_declared_in_project(root_file, parsed, p, i, d.1);
        } else {
            let a = choose|a: Seq<char>| #[trigger] iv.map.contains_key(a) && iv.map[a] == d;
            lemma_imports_accepted(parsed, pm, file, pm.includes.len());
            lemma_accepted_in_project(root_file, parsed, p, d);
        }
    }
    assert forall|i: int, d: IdView|
        0 <= i < p.modules.len() && #[trigger] p.modules[i].includes.contains(d) implies project_target(p, d) is Some by {
        let pm = parsed[i];
        let file = module_file_path(root_file, pm.namespace);
        let m = p.modules[i];
        assert(module_built(parsed, pm, file, m));
        let iv = imports_after(parsed, pm, file, pm.includes.len());
        let a = choose|a: Seq<char>| #[trigger] iv.map.contains_key(a) && iv.map[a] == d;
        lemma_imports_accepted(parsed, pm, file, pm.includes.len());
        lemma_accepted_in_project(root_file, parsed, p, d);
    }
}

/// The diagnostics found while building the module `pm` from its file.
pub open spec fn build_diags(parsed: Seq<ParsedModuleView>, pm: ParsedModuleView, file: Seq<char>) -> Seq<AnalysisDiagView> {
    let iv = imports_after(parsed, pm, file, pm.includes.len());
    iv.diags + target_diags(pm, iv.map, file, pm.targets.len() as nat) + public_diags(pm, file, pm.public_targets.len() as nat)
}

/// The diagnostics found while building the first `n` of the loaded
/// modules, in order.
pub open spec fn module_diags(root_file: Seq<char>, parsed: Seq<ParsedModuleView>, n: nat) -> Seq<AnalysisDiagView>
    decreases n,
{
    if n == 0 || n > parsed.len() {
        seq![]
    } else {
        module_diags(root_file, parsed, (n - 1) as nat) + build_diags(
            parsed,
            parsed[n - 1],
            module_file_path(root_file, parsed[n - 1].namespace),
        )
    }
}

/// The error for a start target that the built project `p` lacks.
pub open spec fn start_diags(root_file: Seq<char>, p: ProjectView, start: Option<IdView>) -> Seq<AnalysisDiagView> {
    match start {
        Some(st) => if project_target(p, st) is None {
            seq![file_error(module_file_path(root_file, st.0), None, "P013"@, "start target `"@ + id_text(st) + "` does not exist"@)]
        } else {
            seq![]
        },
        None => seq![],
    }
}

/// The analysis `s` resolves to `r` through the project `p` built from its
/// modules: the diagnostics are those found so far, those found while
/// building each module, the error for a missing start target, and then
/// the reports of the cycle search, of which there are some exactly when a
/// dependency of `p` leads in a cycle; `r` hands out `p`, if anything.
pub open spec fn resolved(s: StateView, p: ProjectView, r: AnalysisResultView) -> bool {
    let base = s.diagnostics + module_diags(s.root_file, s.parsed, s.parsed.len()) + start_diags(s.root_file, p, s.start);
    &&& project_wf(p)
    &&& p.root_module == Seq::<Seq<char>>::empty()
    &&& modules_built(s.root_file, s.parsed, p)
    &&& r.diagnostics == cycle_search(p, s.root_file, base)
    &&& cycles_appended(base, r.diagnostics)
    &&& (acyclic(p) <==> r.diagnostics == base)
    &&& (r.project is Some ==> r.project == Some(p))
}

impl AnalysisState {
    /// Builds the project from the loaded modules and checks it: the start
    /// target must exist and no dependency may lead in a cycle. The project
    /// is handed out in build mode when no diagnostic is an error.
    pub fn resolve(self) -> (r: AnalysisResult)
        requires
            self.wf(),
        ensures
            r@.project is Some <==> (self@.mode == AnalysisMode::Build && !any_error(r@.diagnostics)),
            self@.diagnostics.len() <= r@.diagnostics.len(),
            r@.diagnostics.take(self@.diagnostics.len() as int) == self@.diagnostics,
            r@.project matches Some(p) ==> {
                &&& project_wf(p)
                &&& p.root_module == Seq::<Seq<char>>::empty()
                &&& modules_built(self@.root_file, self@.parsed, p)
                &&& crate::graph::project_closed(p)
                &&& (self@.start matches Some(st) ==> project_target(p, st) is Some)
            },
            exists|p: ProjectView| #[trigger] resolved(self@, p, r@),
    {
        let (r, _) = self.resolve_with_modules();
        r
    }

    /// Resolves the analysis as `resolve` does and also hands back the
    /// loaded modules, in namespace order.
    pub fn resolve_with_modules(self) -> (r: (AnalysisResult, Vec<ParsedModule>))
        requires
            self.wf(),
        ensures
            r.0@.project is Some <==> (self@.mode == AnalysisMode::Build && !any_error(r.0@.diagnostics)),
            self@.diagnostics.len() <= r.0@.diagnostics.len(),
            r.0@.diagnostics.take(self@.diagnostics.len() as int) == self@.diagnostics,
            r.0@.project matches Some(p) ==> {
                &&& project_wf(p)
                &&& p.root_module == Seq::<Seq<char>>::empty()
                &&& modules_built(self@.root_file, self@.parsed, p)
                &&& crate::graph::project_closed(p)
                &&& (self@.start matches Some(st) ==> project_target(p, st) is Some)
            },
            exists|p: ProjectView| #[trigger] resolved(self@, p, r.0@),
            parsed_views(r.1@) == self@.parsed,
    {
        let ghost sv = self@;
        let ghost pv = self@.parsed;
        let ghost d0 = self@.diagnostics;
        let AnalysisState { analyzer, start, parsed, pending: _, visited: _, diagnostics } = self;
        let mut diagnostics = diagnostics;
        let mut project = Project::new(ModulePath::root());
        assert(d0 + module_diags(analyzer.root_file@, pv, 0) =~= d0);
        let mut i: usize = 0;
        while i < parsed.len()
            invariant
                i <= parsed.len(),
                pv == parsed_views(parsed@),
                crate::model::paths_sorted(parsed_namespaces(pv)),
                project.wf(),
                project@.root_module == Seq::<Seq<char>>::empty(),
                analysis_views(diagnostics@) == d0 + module_diags(analyzer.root_file@, pv, i as nat),
                project@.modules.len() == i,
                forall|k: int| 0 <= k < i ==> module_built(
                    pv,
                    pv[k],
                    module_file_path(analyzer.root_file@, pv[k].namespace),
                    #[trigger] project@.modules[k],
                ),
                sv.root_file == analyzer.root_file@,
            decreases parsed.len() - i,
        {
            let ghost db = analysis_views(diagnostics@);
            let file = analyzer.module_file(parsed[i].namespace());
            assert(pv[i as int] == parsed@[i as int]@);
            let module = build_module(&parsed, &parsed[i], file.as_str(), &mut diagnostics);
            let ghost mv = module@;
            let ghost old_p = project@;
            proof {
                assert(analysis_views(diagnostics@) =~= d0 + module_diags(analyzer.root_file@, pv, (i + 1) as nat));
                assert forall|k: int| 0 <= k < old_p.modules.len() implies (#[trigger] old_p.modules[k]).namespace != mv.namespace by {
                    assert(module_built(pv, pv[k], module_file_path(analyzer.root_file@, pv[k].namespace), old_p.modules[k]));
                    assert(parsed_namespaces(pv)[k] == pv[k].namespace);
                    assert(parsed_namespaces(pv)[i as int] == pv[i as int].namespace);
                    assert(crate::order::path_lt(pv[k].namespace, pv[i as int].namespace));
                    crate::order::lemma_path_lt_irreflexive(pv[k].namespace);
                }
                assert(crate::model::module_at(old_p, mv.namespace) is None);
            }
            match project.add_module(module) {
                Ok(()) => {
                    proof {
                        {
                            let q = choose|q: int| 0 <= q <= old_p.modules.len() && project@ == (ProjectView {
                                modules: old_p.modules.insert(q, mv),
                                ..old_p
                            });
                            if q < old_p.modules.len() {
                                let k = q;
                                assert(project@.modules[q + 1] == old_p.modules[k]);
                                assert(crate::model::module_paths(project@.modules)[q] == mv.namespace);
                                assert(crate::model::module_paths(project@.modules)[q + 1] == pv[k].namespace);
                                assert(crate::order::path_lt(mv.namespace, pv[k].namespace));
                                assert(parsed_namespaces(pv)[k] == pv[k].namespace);
                                assert(parsed_namespaces(pv)[i as int] == pv[i as int].namespace);
                                assert(crate::order::path_lt(pv[k].namespace, pv[i as int].namespace));
                                crate::order::lemma_path_lt_asymmetric(pv[k].namespace, pv[i as int].namespace);
                            }
                            assert forall|k: int| 0 <= k < i + 1 implies module_built(
                                pv,
                                pv[k],
                                module_file_path(analyzer.root_file@, pv[k].namespace),
                                #[trigger] project@.modules[k],
                            ) by {
                                if k < i {
                                    assert(project@.modules[k] == old_p.modules[k]);
                                }
                            }
                        }
                    }
                },
                Err(_) => {
                    assert(false);
                },
            }
            i = i + 1;
        }
        let ghost pb = project@;
        assert(modules_built(sv.root_file, pv, pb));
        let ghost base = d0 + module_diags(sv.root_file, pv, pv.len()) + start_diags(sv.root_file, pb, sv.start);
        match &start {
            Some(st) => {
                if crate::compiler::find_target(&project, st).is_none() {
                    let mut message = owned("start target `");
                    let text = st.to_string();
                    push_str(&mut message, text.as_str());
                    push_str(&mut message, "` does not exist");
                    let file = analyzer.module_file(st.namespace());
                    let d = AnalysisDiagnostic::error(file.as_str(), None, "P013", message);
                    let ghost dn = analysis_views(diagnostics@);
                    diagnostics.push(d);
                    proof {
                        assert(analysis_views(diagnostics@) =~= dn.push(d@));
                        assert(analysis_views(diagnostics@) =~= base);
                        assert(analysis_views(diagnostics@)[dn.len() as int].error);
                    }
                } else {
                    assert(analysis_views(diagnostics@) =~= base);
                }
            },
            None => {
                assert(analysis_views(diagnostics@) =~= base);
            },
        }
        let ghost dc = analysis_views(diagnostics@);
        detect_cycles(&analyzer, &project, &mut diagnostics);
        proof {
            let dn = analysis_views(diagnostics@);
            assert(dn.take(d0.len() as int) =~= dn.take(dc.len() as int).take(d0.len() as int));
            if any_error(dc) {
                let e = choose|e: int| 0 <= e < dc.len() && (#[trigger] dc[e]).error;
                assert(dn.take(dc.len() as int)[e] == dc[e]);
                assert(dn[e].error);
            }
            assert(d0.len() <= dn.len());
            assert(dn.take(d0.len() as int) =~= dc.take(d0.len() as int));
            assert(dc.take(d0.len() as int) =~= d0);
        }
        let has_errors = diagnostics_have_errors(diagnostics.as_slice());
        let build = match analyzer.mode {
            AnalysisMode::Build => true,
            AnalysisMode::DryRun => false,
        };
        proof {
            if !has_errors && build {
                lemma_built_project_closed(sv.root_file, pv, project@);
            }
        }
        let project = if !has_errors && build {
            Some(project)
        } else {
            None
        };
        let r = AnalysisResult { project, diagnostics };
        assert(resolved(sv, pb, r@));
        (r, parsed)
    }
}

/// A project that the analysis hands out has no dependency cycle: its
/// analysis found no error, so it reported no cycle, and planning any of
/// its targets never meets a dependency cycle.
pub proof fn lemma_handed_out_projects_are_acyclic(s: StateView, p: ProjectView, r: AnalysisResultView, root: IdView, c: Seq<IdView>)
    requires
        resolved(s, p, r),
        !any_error(r.diagnostics),
    ensures
        acyclic(p),
        !crate::compiler::cyclic_core(p, root, c),
{
    let base = s.diagnostics + module_diags(s.root_file, s.parsed, s.parsed.len()) + start_diags(s.root_file, p, s.start);
    if r.diagnostics.len() > base.len() {
        assert(r.diagnostics[base.len() as int].error);
        assert(any_error(r.diagnostics));
    }
    assert(r.diagnostics =~= base) by {
        assert(r.diagnostics.take(base.len() as int) == base);
    }
    crate::compiler::lemma_acyclic_plans_without_cycles(p, root, c);
}


/// A module built from a parsed module holds a target of a name exactly when
/// the parsed module declares the name.
proof fn lemma_built_names(parsed: Seq<ParsedModuleView>, pm: ParsedModuleView, file: Seq<char>, m: ModuleView, name: Seq<char>)
    requires
        module_built(parsed, pm, file, m),
    ensures
        has_name(m.targets, name) <==> declares(pm, name),
{
    let iv = imports_after(parsed, pm, file, pm.includes.len());
    if has_name(m.targets, name) {
        let i = choose|i: int| 0 <= i < m.targets.len() && (#[trigger] m.targets[i]).id.1 == name;
        assert(built_item(m.targets[i], pm, iv.map, file, pm.targets.len() as int, true));
        let j = choose|j: int| 0 <= j < pm.targets.len() as int && #[trigger] first_declared(pm, j)
            && m.targets[i] == (crate::model::TargetView {
                public: true && publishes(pm, pm.targets[j].name),
                ..built_target(pm, iv.map, file, pm.targets[j])
            });
        assert(pm.targets[j].name == name);
    }
    if declares(pm, name) {
        let j = choose|j: int| 0 <= j < pm.targets.len() && (#[trigger] pm.targets[j]).name == name;
        assert(has_name(m.targets, pm.targets[j].name));
    }
}

/// A module built from a parsed module holds, under a declared name, the
/// target built from the first declaration of that name.
proof fn lemma_built_target_of_name(parsed: Seq<ParsedModuleView>, pm: ParsedModuleView, file: Seq<char>, m1: ModuleView, m2: ModuleView, a: int, b: int)
    requires
        module_built(parsed, pm, file, m1),
        module_built(parsed, pm, file, m2),
        0 <= a < m1.targets.len(),
        0 <= b < m2.targets.len(),
        m1.targets[a].id.1 == m2.targets[b].id.1,
    ensures
        m1.targets[a] == m2.targets[b],
{
    let iv = imports_after(parsed, pm, file, pm.includes.len());
    let n = pm.targets.len() as int;
    assert(built_item(m1.targets[a], pm, iv.map, file, n, true));
    assert(built_item(m2.targets[b], pm, iv.map, file, n, true));
    let j1 = choose|j: int| 0 <= j < n && #[trigger] first_declared(pm, j)
        && m1.targets[a] == (crate::model::TargetView {
            public: true && publishes(pm, pm.targets[j].name),
            ..built_target(pm, iv.map, file, pm.targets[j])
        });
    let j2 = choose|j: int| 0 <= j < n && #[trigger] first_declared(pm, j)
        && m2.targets[b] == (crate::model::TargetView {
            public: true && publishes(pm, pm.targets[j].name),
            ..built_target(pm, iv.map, file, pm.targets[j])
        });
    if j1 < j2 {
        assert(pm.targets[j1].name != pm.targets[j2].name);
    } else if j2 < j1 {
        assert(pm.targets[j2].name != pm.targets[j1].name);
    }
}

/// Two projects built from the same parsed modules hold the same targets.
proof fn lemma_same_targets_present(
    root_file: Seq<char>,
    parsed: Seq<ParsedModuleView>,
    p1: ProjectView,
    p2: ProjectView,
    id: IdView,
)
    requires
        project_wf(p1),
        project_wf(p2),
        modules_built(root_file, parsed, p1),
        modules_built(root_file, parsed, p2),
    ensures
        project_target(p1, id) == project_target(p2, id),
{
    crate::model::lemma_project_lookup_matches_listing(p1, id.0);
    crate::model::lemma_project_lookup_matches_listing(p2, id.0);
    if module_at(p1, id.0) is Some {
        let i = choose|i: int| 0 <= i < p1.modules.len() && (#[trigger] p1.modules[i]).namespace == id.0;
        assert(module_built(parsed, parsed[i], module_file_path(root_file, parsed[i].namespace), p1.modules[i]));
        assert(module_built(parsed, parsed[i], module_file_path(root_file, parsed[i].namespace), p2.modules[i]));
        assert(p2.modules[i].namespace == id.0);
        let f = module_file_path(root_file, parsed[i].namespace);
        lemma_built_names(parsed, parsed[i], f, p1.modules[i], id.1);
        lemma_built_names(parsed, parsed[i], f, p2.modules[i], id.1);
        crate::model::lemma_module_lookup_matches_listing(p1.modules[i], id.1);
        crate::model::lemma_module_lookup_matches_listing(p2.modules[i], id.1);
        if has_name(p1.modules[i].targets, id.1) {
            let a = choose|a: int| 0 <= a < p1.modules[i].targets.len() && (#[trigger] p1.modules[i].targets[a]).id.1 == id.1;
            let b = choose|b: int| 0 <= b < p2.modules[i].targets.len() && (#[trigger] p2.modules[i].targets[b]).id.1 == id.1;
            lemma_built_target_of_name(parsed, parsed[i], f, p1.modules[i], p2.modules[i], a, b);
        }
    } else if module_at(p2, id.0) is Some {
        let i = choose|i: int| 0 <= i < p2.modules.len() && (#[trigger] p2.modules[i]).namespace == id.0;
        assert(module_built(parsed, parsed[i], module_file_path(root_file, parsed[i].namespace), p1.modules[i]));
        assert(module_built(parsed, parsed[i], module_file_path(root_file, parsed[i].namespace), p2.modules[i]));
        assert(p1.modules[i].namespace == id.0);
    }
}

/// Two sorted lists of names with the same members are equal.
proof fn lemma_sorted_texts_equal(a: Seq<Seq<char>>, b: Seq<Seq<char>>)
    requires
        crate::model::texts_sorted(a),
        crate::model::texts_sorted(b),
        forall|x: Seq<char>| a.contains(x) <==> b.contains(x),
    ensures
        a == b,
    decreases a.len(),
{
    if a.len() == 0 {
        if b.len() > 0 {
            assert(b.contains(b[0]));
        }
        assert(a =~= b);
    } else {
        assert(a.contains(a[0]));
        let q = choose|q: int| 0 <= q < b.len() && b[q] == a[0];
        assert(b.contains(b[0]));
        let r = choose|r: int| 0 <= r < a.len() && a[r] == b[0];
        if q > 0 {
            assert(crate::text::text_lt(b[0], b[q]));
            if r > 0 {
                assert(crate::text::text_lt(a[0], a[r]));
                crate::order::lemma_text_lt_asymmetric(a[0], b[0]);
            } else {
                crate::order::lemma_text_lt_irreflexive(a[0]);
            }
        }
        assert(a[0] == b[0]);
        let a1 = a.drop_first();
        let b1 = b.drop_first();
        assert forall|x: Seq<char>| a1.contains(x) <==> b1.contains(x) by {
            if a1.contains(x) {
                let i = choose|i: int| 0 <= i < a1.len() && a1[i] == x;
                assert(a.contains(x) && a[i + 1] == x);
                assert(crate::text::text_lt(a[0], a[i + 1]));
                crate::order::lemma_text_lt_irreflexive(a[0]);
                let k = choose|k: int| 0 <= k < b.len() && b[k] == x;
                assert(k != 0);
                assert(b1[k - 1] == x);
            }
            if b1.contains(x) {
                let i = choose|i: int| 0 <= i < b1.len() && b1[i] == x;
                assert(b.contains(x) && b[i + 1] == x);
                assert(crate::text::text_lt(b[0], b[i + 1]));
                crate::order::lemma_text_lt_irreflexive(b[0]);
                let k = choose|k: int| 0 <= k < a.len() && a[k] == x;
                assert(k != 0);
                assert(a1[k - 1] == x);
            }
        }
        lemma_sorted_texts_equal(a1, b1);
        assert(a =~= seq![a[0]] + a1);
        assert(b =~= seq![b[0]] + b1);
    }
}

/// Two well-formed modules built from the same parsed module list the same
/// targets.
proof fn lemma_built_targets_equal(parsed: Seq<ParsedModuleView>, pm: ParsedModuleView, file: Seq<char>, m1: ModuleView, m2: ModuleView)
    requires
        crate::model::module_wf(m1),
        crate::model::module_wf(m2),
        module_built(parsed, pm, file, m1),
        module_built(parsed, pm, file, m2),
    ensures
        m1.targets == m2.targets,
{
    let n1 = crate::model::target_names(m1.targets);
    let n2 = crate::model::target_names(m2.targets);
    assert forall|x: Seq<char>| n1.contains(x) <==> n2.contains(x) by {
        lemma_built_names(parsed, pm, file, m1, x);
        lemma_built_names(parsed, pm, file, m2, x);
        if n1.contains(x) {
            let i = choose|i: int| 0 <= i < n1.len() && n1[i] == x;
            assert(m1.targets[i].id.1 == x);
            let k = choose|k: int| 0 <= k < m2.targets.len() && (#[trigger] m2.targets[k]).id.1 == x;
            assert(n2[k] == x);
        }
        if n2.contains(x) {
            let i = choose|i: int| 0 <= i < n2.len() && n2[i] == x;
            assert(m2.targets[i].id.1 == x);
            let k = choose|k: int| 0 <= k < m1.targets.len() && (#[trigger] m1.targets[k]).id.1 == x;
            assert(n1[k] == x);
        }
    }
    lemma_sorted_texts_equal(n1, n2);
    assert forall|k: int| 0 <= k < m1.targets.len() implies m1.targets[k] == m2.targets[k] by {
        assert(n1[k] == m1.targets[k].id.1);
        assert(n2[k] == m2.targets[k].id.1);
        lemma_built_target_of_name(parsed, pm, file, m1, m2, k, k);
    }
    assert(m1.targets =~= m2.targets);
}

/// Modules with the same targets have the same target identities.
proof fn lemma_same_target_lists(ms1: Seq<ModuleView>, ms2: Seq<ModuleView>, k: nat)
    requires
        ms1.len() == ms2.len(),
        k <= ms1.len(),
        forall|i: int| 0 <= i < ms1.len() ==> (#[trigger] ms1[i]).targets == ms2[i].targets,
    ensures
        target_ids_of(ms1.take(k as int)) == target_ids_of(ms2.take(k as int)),
        crate::graph::ids_upto(ms1, k) == crate::graph::ids_upto(ms2, k),
    decreases k,
{
    if k > 0 {
        lemma_same_target_lists(ms1, ms2, (k - 1) as nat);
        assert(ms1.take(k as int).drop_last() =~= ms1.take(k - 1));
        assert(ms2.take(k as int).drop_last() =~= ms2.take(k - 1));
        assert(ms1[k - 1].targets == ms2[k - 1].targets);
    } else {
        assert(ms1.take(0) =~= ms2.take(0));
    }
}

/// Two analyses of the same loaded modules that differ only in whether they
/// hand the project out report the same diagnostics.
pub proof fn lemma_build_and_dry_runs_report_alike(
    s1: StateView,
    s2: StateView,
    p1: ProjectView,
    p2: ProjectView,
    r1: AnalysisResultView,
    r2: AnalysisResultView,
)
    requires
        s1 == (StateView { mode: s1.mode, ..s2 }),
        resolved(s1, p1, r1),
        resolved(s2, p2, r2),
    ensures
        r1.diagnostics == r2.diagnostics,
{
    assert forall|id: IdView| project_target(p1, id) == project_target(p2, id) by {
        lemma_same_targets_present(s1.root_file, s1.parsed, p1, p2, id);
    }
    assert(start_diags(s1.root_file, p1, s1.start) == start_diags(s2.root_file, p2, s2.start));
    assert(project_deps(p1) =~= project_deps(p2));
    assert forall|i: int| 0 <= i < p1.modules.len() implies (#[trigger] p1.modules[i]).targets == p2.modules[i].targets by {
        let pm = s1.parsed[i];
        let f = module_file_path(s1.root_file, pm.namespace);
        assert(module_built(s1.parsed, pm, f, p1.modules[i]));
        assert(module_built(s1.parsed, pm, f, p2.modules[i]));
        lemma_built_targets_equal(s1.parsed, pm, f, p1.modules[i], p2.modules[i]);
    }
    lemma_same_target_lists(p1.modules, p2.modules, p1.modules.len());
    assert(p1.modules.take(p1.modules.len() as int) =~= p1.modules);
    assert(p2.modules.take(p2.modules.len() as int) =~= p2.modules);
}

} // verus!
