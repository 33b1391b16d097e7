//! Static checks of Markfiles that do not change the source: the parser's
//! diagnostics plus warnings about the quality of targets and imports.

use vstd::prelude::*;
use crate::model::ModulePath;
use crate::parser::{spec_parse, ImportView, ParseMode, ParsedModule, ParsedModuleView, ParsedTargetView, Parser};
use crate::project::{
    analysis_views, any_error, declares, diagnostics_have_errors, tagged_all, AnalysisDiagView, AnalysisDiagnostic,
    AnalysisResult,
};
use crate::text::{chars_of, is_blank, owned, push_str, text_eq, texts, trim};

verus! {

/// The diagnostics of a file or a project.
#[derive(Debug)]
pub struct LintResult {
    diagnostics: Vec<AnalysisDiagnostic>,
}

impl View for LintResult {
    type V = Seq<AnalysisDiagView>;

    closed spec fn view(&self) -> Seq<AnalysisDiagView> {
        analysis_views(self.diagnostics@)
    }
}

impl LintResult {
    /// The diagnostics of a project analysis followed by the quality
    /// warnings of its files.
    pub fn from_analysis(analysis: &AnalysisResult, quality: Vec<AnalysisDiagnostic>) -> (r: Self)
        ensures
            r@ == analysis@.diagnostics + analysis_views(quality@),
    {
        let found = analysis.diagnostics();
        let mut diagnostics: Vec<AnalysisDiagnostic> = Vec::new();
        let mut i: usize = 0;
        while i < found.len()
            invariant
                i <= found.len(),
                analysis_views(found@) == analysis@.diagnostics,
                analysis_views(diagnostics@) == analysis@.diagnostics.take(i as int),
            decreases found.len() - i,
        {
            let ghost before = diagnostics@;
            diagnostics.push(found[i].duplicate());
            assert(analysis_views(diagnostics@) =~= analysis_views(before).push(found@[i as int]@));
            assert(analysis@.diagnostics.take(i + 1) =~= analysis@.diagnostics.take(i as int).push(found@[i as int]@));
            i = i + 1;
        }
        assert(analysis@.diagnostics.take(found.len() as int) =~= analysis@.diagnostics);
        let mut quality = quality;
        let ghost q = analysis_views(quality@);
        let ghost base = analysis_views(diagnostics@);
        diagnostics.append(&mut quality);
        assert(analysis_views(diagnostics@) =~= base + q);
        LintResult { diagnostics }
    }

    /// The syntax, reference and quality diagnostics.
    pub fn diagnostics(&self) -> (r: &[AnalysisDiagnostic])
        ensures
            analysis_views(r@) == self@,
    {
        self.diagnostics.as_slice()
    }

    /// Whether some diagnostic blocks a build.
    pub fn has_errors(&self) -> (r: bool)
        ensures
            r == any_error(self@),
    {
        diagnostics_have_errors(self.diagnostics.as_slice())
    }
}

/// A quality warning about a line of a file.
pub open spec fn quality_warning(file: Seq<char>, line: nat, code: Seq<char>, message: Seq<char>) -> AnalysisDiagView {
    AnalysisDiagView { error: false, file, line: Some(line), code, message }
}

/// The warnings about the first `n` targets: one for a blank description
/// and one for a target without specifications.
pub open spec fn target_warnings(file: Seq<char>, ts: Seq<ParsedTargetView>, n: nat) -> Seq<AnalysisDiagView>
    decreases n,
{
    if n == 0 || n > ts.len() {
        seq![]
    } else {
        let t = ts[n - 1];
        target_warnings(file, ts, (n - 1) as nat)
            + (if trim(t.description).len() == 0 {
            seq![quality_warning(file, t.line, "L001"@, "target has no description"@)]
        } else {
            seq![]
        }) + (if t.specifications.len() == 0 {
            seq![quality_warning(file, t.line, "L002"@, "target has no specifications"@)]
        } else {
            seq![]
        })
    }
}

/// Some target of `m` depends on the single name `name`.
pub open spec fn used_name(m: ParsedModuleView, name: Seq<char>) -> bool {
    exists|i: int, j: int|
        0 <= i < m.targets.len() && 0 <= j < m.targets[i].dependencies.len()
            && #[trigger] m.targets[i].dependencies[j].path.len() == 1 && m.targets[i].dependencies[j].path[0] == name
}

/// The local name of an import: its alias, or the last segment of its path.
pub open spec fn lint_alias(inc: ImportView) -> Seq<char> {
    match inc.alias {
        Some(a) => a,
        None => inc.target.path.last(),
    }
}

/// An earlier import among the first `n` has the same path and local name as
/// import `n`.
pub open spec fn repeated_import(incs: Seq<ImportView>, n: int) -> bool {
    exists|j: int| 0 <= j < n && incs[j].target.path.len() > 0 && #[trigger] incs[j].target.path == incs[n].target.path
        && lint_alias(incs[j]) == lint_alias(incs[n])
}

/// The warnings about the first `n` imports of `m`: repeated imports, and
/// imports whose name no dependency uses or that a local target shadows.
pub open spec fn import_warnings(file: Seq<char>, m: ParsedModuleView, n: nat) -> Seq<AnalysisDiagView>
    decreases n,
{
    if n == 0 || n > m.includes.len() {
        seq![]
    } else {
        let inc = m.includes[n - 1];
        let alias = lint_alias(inc);
        import_warnings(file, m, (n - 1) as nat) + if inc.target.path.len() == 0 {
            seq![]
        } else {
            (if repeated_import(m.includes, n - 1) {
                seq![quality_warning(file, inc.target.line, "L004"@, "duplicate import"@)]
            } else {
                seq![]
            }) + (if !used_name(m, alias) || declares(m, alias) {
                seq![quality_warning(file, inc.target.line, "L003"@, "unused import `"@ + alias + "`"@)]
            } else {
                seq![]
            })
        }
    }
}

/// The quality warnings of a parsed file.
pub open spec fn lint_warnings(file: Seq<char>, m: ParsedModuleView) -> Seq<AnalysisDiagView> {
    target_warnings(file, m.targets, m.targets.len()) + import_warnings(file, m, m.includes.len())
}

/// Appends a warning.
fn warn(diagnostics: &mut Vec<AnalysisDiagnostic>, file: &str, line: usize, code: &'static str, message: String)
    ensures
        analysis_views(final(diagnostics)@) == analysis_views(old(diagnostics)@).push(
            quality_warning(file@, line as nat, code@, message@),
        ),
{
    let ghost before = diagnostics@;
    diagnostics.push(AnalysisDiagnostic::warning(file, line, code, message));
    assert(analysis_views(diagnostics@) =~= analysis_views(before).push(quality_warning(file@, line as nat, code@, message@)));
}

/// Whether some target of `m` depends on the single name `name`.
fn uses_name(m: &ParsedModule, name: &str) -> (r: bool)
    ensures
        r == used_name(m@, name@),
{
    let targets = m.targets();
    let mut i: usize = 0;
    while i < targets.len()
        invariant
            i <= targets.len(),
            crate::parser::parsed_target_views(targets@) == m@.targets,
            forall|x: int, y: int| 0 <= x < i && 0 <= y < m@.targets[x].dependencies.len()
                ==> !(#[trigger] m@.targets[x].dependencies[y].path.len() == 1 && m@.targets[x].dependencies[y].path[0] == name@),
        decreases targets.len() - i,
    {
        let deps = targets[i].dependencies();
        assert(m@.targets[i as int] == targets@[i as int]@);
        let mut j: usize = 0;
        while j < deps.len()
            invariant
                j <= deps.len(),
                i < targets.len(),
                crate::parser::parsed_target_views(targets@) == m@.targets,
                crate::parser::ref_views(deps@) == m@.targets[i as int].dependencies,
                forall|x: int, y: int| 0 <= x < i && 0 <= y < m@.targets[x].dependencies.len()
                    ==> !(#[trigger] m@.targets[x].dependencies[y].path.len() == 1 && m@.targets[x].dependencies[y].path[0] == name@),
                forall|y: int| 0 <= y < j ==> !(#[trigger] m@.targets[i as int].dependencies[y].path.len() == 1
                    && m@.targets[i as int].dependencies[y].path[0] == name@),
            decreases deps.len() - j,
        {
            let segments = deps[j].path().segments();
            assert(m@.targets[i as int].dependencies[j as int] == deps@[j as int]@);
            assert(texts(segments@) == deps@[j as int]@.path);
            if segments.len() == 1 && text_eq(segments[0].as_str(), name) {
                assert(m@.targets[i as int].dependencies[j as int].path.len() == 1);
                return true;
            }
            j = j + 1;
        }
        i = i + 1;
    }
    false
}

/// Whether an import among the first `n` has the same path and local name.
fn seen_before(imports: &[crate::parser::ParsedInclude], n: usize, segments: &[String], alias: &str) -> (r: bool)
    requires
        n <= imports@.len(),
    ensures
        r == exists|j: int| 0 <= j < n && (#[trigger] imports@[j])@.target.path.len() > 0
            && imports@[j]@.target.path == texts(segments@) && lint_alias(imports@[j]@) == alias@,
{
    let mut j: usize = 0;
    while j < n
        invariant
            j <= n,
            n <= imports@.len(),
            forall|x: int| 0 <= x < j ==> !((#[trigger] imports@[x])@.target.path.len() > 0
                && imports@[x]@.target.path == texts(segments@) && lint_alias(imports@[x]@) == alias@),
        decreases n - j,
    {
        let other = imports[j].target().path().segments();
        if other.len() > 0 && crate::formatter::strings_eq(other, segments) {
            let other_alias: &str = match imports[j].alias() {
                Some(a) => a,
                None => other[other.len() - 1].as_str(),
            };
            assert(texts(other@).last() == other@[other.len() - 1]@);
            if text_eq(other_alias, alias) {
                return true;
            }
        }
        j = j + 1;
    }
    false
}

/// Appends the quality warnings of a parsed file.
pub fn lint_module(file: &str, module: &ParsedModule, diagnostics: &mut Vec<AnalysisDiagnostic>)
    ensures
        analysis_views(final(diagnostics)@) == analysis_views(old(diagnostics)@) + lint_warnings(file@, module@),
{
    let ghost m = module@;
    let ghost d0 = analysis_views(diagnostics@);
    let targets = module.targets();
    let mut i: usize = 0;
    while i < targets.len()
        invariant
            i <= targets.len(),
            crate::parser::parsed_target_views(targets@) == m.targets,
            analysis_views(diagnostics@) == d0 + target_warnings(file@, m.targets, i as nat),
        decreases targets.len() - i,
    {
        let ghost t = m.targets[i as int];
        assert(t == targets@[i as int]@);
        let ghost di = analysis_views(diagnostics@);
        let description = chars_of(targets[i].description());
        if is_blank(description.as_slice()) {
            warn(diagnostics, file, targets[i].line(), "L001", owned("target has no description"));
        }
        let ghost dj = analysis_views(diagnostics@);
        if targets[i].specifications().len() == 0 {
            warn(diagnostics, file, targets[i].line(), "L002", owned("target has no specifications"));
        }
        proof {
            crate::text::lemma_blank_trim(t.description);
            assert(analysis_views(diagnostics@) =~= d0 + target_warnings(file@, m.targets, (i + 1) as nat));
        }
        i = i + 1;
    }
    let ghost d1 = analysis_views(diagnostics@);
    let imports = module.includes();
    let mut k: usize = 0;
    while k < imports.len()
        invariant
            k <= imports.len(),
            crate::parser::import_views(imports@) == m.includes,
            m == module@,
            analysis_views(diagnostics@) == d1 + import_warnings(file@, m, k as nat),
            d1 == d0 + target_warnings(file@, m.targets, m.targets.len()),
        decreases imports.len() - k,
    {
        let ghost inc = m.includes[k as int];
        assert(inc == imports@[k as int]@);
        let segments = imports[k].target().path().segments();
        assert(texts(segments@) == inc.target.path);
        if segments.len() > 0 {
            let alias: &str = match imports[k].alias() {
                Some(a) => a,
                None => segments[segments.len() - 1].as_str(),
            };
            assert(alias@ == lint_alias(inc));
            let line = imports[k].target().line();
            let ghost dk = analysis_views(diagnostics@);
            if seen_before(imports, k, segments, alias) {
                warn(diagnostics, file, line, "L004", owned("duplicate import"));
            }
            proof {
                assert(repeated_import(m.includes, k as int) == exists|j: int| 0 <= j < k && (#[trigger] imports@[j])@.target.path.len() > 0
                    && imports@[j]@.target.path == texts(segments@) && lint_alias(imports@[j]@) == alias@) by {
                    if repeated_import(m.includes, k as int) {
                        let j = choose|j: int| 0 <= j < k && m.includes[j].target.path.len() > 0 && #[trigger] m.includes[j].target.path == m.includes[k as int].target.path
                            && lint_alias(m.includes[j]) == lint_alias(m.includes[k as int]);
                        assert(imports@[j]@ == m.includes[j]);
                    }
                    if exists|j: int| 0 <= j < k && (#[trigger] imports@[j])@.target.path.len() > 0
                        && imports@[j]@.target.path == texts(segments@) && lint_alias(imports@[j]@) == alias@ {
                        let j = choose|j: int| 0 <= j < k && (#[trigger] imports@[j])@.target.path.len() > 0
                            && imports@[j]@.target.path == texts(segments@) && lint_alias(imports@[j]@) == alias@;
                        assert(imports@[j]@ == m.includes[j]);
                    }
                }
            }
            let ghost dl = analysis_views(diagnostics@);
            assert(dl =~= dk + (if repeated_import(m.includes, k as int) {
                seq![quality_warning(file@, inc.target.line, "L004"@, "duplicate import"@)]
            } else {
                seq![]
            }));
            let unused = !uses_name(module, alias) || crate::project::declares_name(module, alias);
            if unused {
                let mut message = owned("unused import `");
                push_str(&mut message, alias);
                push_str(&mut message, "`");
                assert(message@ == "unused import `"@ + lint_alias(inc) + "`"@);
                warn(diagnostics, file, line, "L003", message);
                assert(analysis_views(diagnostics@) =~= dl.push(quality_warning(file@, inc.target.line, "L003"@, "unused import `"@ + lint_alias(inc) + "`"@)));
            } else {
                assert(analysis_views(diagnostics@) =~= dl);
            }
            assert(analysis_views(diagnostics@) =~= dl + (if !used_name(m, lint_alias(inc)) || declares(m, lint_alias(inc)) {
                seq![quality_warning(file@, inc.target.line, "L003"@, "unused import `"@ + lint_alias(inc) + "`"@)]
            } else {
                seq![]
            }));
            assert(m.includes[k as int] == inc);
            assert(analysis_views(diagnostics@) =~= d1 + import_warnings(file@, m, (k + 1) as nat));
        } else {
            assert(analysis_views(diagnostics@) =~= d1 + import_warnings(file@, m, (k + 1) as nat));
        }
        k = k + 1;
    }
    assert(analysis_views(diagnostics@) =~= d0 + lint_warnings(file@, m));
}

/// Lints Markfiles without changing them.
#[derive(Clone, Copy, Debug)]
pub struct Linter;

impl Linter {
    /// Creates a linter.
    pub fn new() -> (r: Self) {
        Linter
    }

    /// Checks the text of one file on its own, without resolving references:
    /// the parser's diagnostics followed by the quality warnings.
    pub fn lint_source(&self, file: &str, source: &str) -> (r: LintResult)
        ensures
            ({
                let parsed = spec_parse(ParseMode::DryRun, seq![], source@);
                r@ == tagged_all(file@, parsed.diagnostics) + lint_warnings(file@, parsed.module)
            }),
    {
        let parsed = Parser::new(ParseMode::DryRun).parse(ModulePath::root(), source);
        let ghost pv = parsed@;
        let found = parsed.diagnostics();
        let mut diagnostics: Vec<AnalysisDiagnostic> = Vec::new();
        let mut i: usize = 0;
        while i < found.len()
            invariant
                i <= found.len(),
                crate::parser::diag_views(found@) == pv.diagnostics,
                analysis_views(diagnostics@) == tagged_all(file@, pv.diagnostics.take(i as int)),
            decreases found.len() - i,
        {
            let ghost before = diagnostics@;
            let d = AnalysisDiagnostic::from_parse(file, &found[i]);
            diagnostics.push(d);
            proof {
                assert(pv.diagnostics[i as int] == found@[i as int]@);
                assert(pv.diagnostics.take(i + 1) =~= pv.diagnostics.take(i as int).push(pv.diagnostics[i as int]));
                assert(analysis_views(diagnostics@) =~= analysis_views(before).push(d@));
                assert(tagged_all(file@, pv.diagnostics.take(i + 1)) =~= tagged_all(file@, pv.diagnostics.take(i as int)).push(d@));
            }
            i = i + 1;
        }
        assert(pv.diagnostics.take(found.len() as int) =~= pv.diagnostics);
        lint_module(file, parsed.partial_module(), &mut diagnostics);
        LintResult { diagnostics }
    }
}

/// The target warnings are warnings, never errors.
proof fn lemma_target_warnings_are_warnings(file: Seq<char>, ts: Seq<ParsedTargetView>, n: nat)
    ensures
        forall|i: int| 0 <= i < target_warnings(file, ts, n).len() ==> !(#[trigger] target_warnings(file, ts, n)[i]).error,
    decreases n,
{
    if n > 0 && n <= ts.len() {
        lemma_target_warnings_are_warnings(file, ts, (n - 1) as nat);
    }
}

/// The import warnings are warnings, never errors.
proof fn lemma_import_warnings_are_warnings(file: Seq<char>, m: ParsedModuleView, n: nat)
    ensures
        forall|i: int| 0 <= i < import_warnings(file, m, n).len() ==> !(#[trigger] import_warnings(file, m, n)[i]).error,
    decreases n,
{
    if n > 0 && n <= m.includes.len() {
        lemma_import_warnings_are_warnings(file, m, (n - 1) as nat);
    }
}

/// Quality checks never block: linting a text finds an error exactly when
/// parsing it does.
pub proof fn lemma_quality_warnings_never_block(file: Seq<char>, source: Seq<char>)
    ensures
        ({
            let parsed = spec_parse(ParseMode::DryRun, seq![], source);
            any_error(tagged_all(file, parsed.diagnostics) + lint_warnings(file, parsed.module))
                == crate::parser::has_error(parsed.diagnostics)
        }),
{
    let parsed = spec_parse(ParseMode::DryRun, seq![], source);
    let t = tagged_all(file, parsed.diagnostics);
    let w = lint_warnings(file, parsed.module);
    lemma_target_warnings_are_warnings(file, parsed.module.targets, parsed.module.targets.len());
    lemma_import_warnings_are_warnings(file, parsed.module, parsed.module.includes.len());
    let tw = target_warnings(file, parsed.module.targets, parsed.module.targets.len());
    let iw = import_warnings(file, parsed.module, parsed.module.includes.len());
    assert forall|i: int| 0 <= i < w.len() implies !(#[trigger] w[i]).error by {
        if i < tw.len() {
            assert(w[i] == tw[i]);
        } else {
            assert(w[i] == iw[i - tw.len()]);
        }
    }
    if any_error(t + w) {
        let i = choose|i: int| 0 <= i < (t + w).len() && (#[trigger] (t + w)[i]).error;
        if i < t.len() {
            assert((t + w)[i] == t[i]);
            assert(parsed.diagnostics[i].error);
        } else {
            assert((t + w)[i] == w[i - t.len()]);
        }
    }
    if crate::parser::has_error(parsed.diagnostics) {
        let i = choose|i: int| 0 <= i < parsed.diagnostics.len() && (#[trigger] parsed.diagnostics[i]).error;
        assert((t + w)[i] == t[i]);
    }
}


/// The target warnings are about descriptions and specifications only.
proof fn lemma_target_warnings_not_unused(file: Seq<char>, ts: Seq<ParsedTargetView>, n: nat)
    ensures
        forall|i: int| 0 <= i < target_warnings(file, ts, n).len() ==> (#[trigger] target_warnings(file, ts, n)[i]).code != "L003"@,
    decreases n,
{
    reveal_strlit("L001");
    reveal_strlit("L002");
    reveal_strlit("L003");
    assert("L001"@[3] != "L003"@[3]);
    assert("L002"@[3] != "L003"@[3]);
    if n > 0 && n <= ts.len() {
        lemma_target_warnings_not_unused(file, ts, (n - 1) as nat);
    }
}

/// Every unused-import warning among the first `n` imports is on the line
/// of one of them whose local name no dependency uses or a local target
/// shadows.
proof fn lemma_unused_import_origin(file: Seq<char>, m: ParsedModuleView, n: nat)
    ensures
        forall|i: int| 0 <= i < import_warnings(file, m, n).len() && (#[trigger] import_warnings(file, m, n)[i]).code == "L003"@
            ==> exists|j: int| 0 <= j < n && j < m.includes.len()
                && import_warnings(file, m, n)[i].line == Some(#[trigger] m.includes[j].target.line)
                && (!used_name(m, lint_alias(m.includes[j])) || declares(m, lint_alias(m.includes[j]))),
    decreases n,
{
    reveal_strlit("L004");
    reveal_strlit("L003");
    assert("L004"@[3] != "L003"@[3]);
    if n > 0 && n <= m.includes.len() {
        lemma_unused_import_origin(file, m, (n - 1) as nat);
        let prev = import_warnings(file, m, (n - 1) as nat);
        let all = import_warnings(file, m, n);
        let inc = m.includes[n - 1];
        assert forall|i: int| 0 <= i < all.len() && (#[trigger] all[i]).code == "L003"@
            implies exists|j: int| 0 <= j < n && j < m.includes.len()
                && all[i].line == Some(#[trigger] m.includes[j].target.line)
                && (!used_name(m, lint_alias(m.includes[j])) || declares(m, lint_alias(m.includes[j]))) by {
            if i < prev.len() {
                assert(all[i] == prev[i]);
                let j = choose|j: int| 0 <= j < n - 1 && j < m.includes.len()
                    && prev[i].line == Some(#[trigger] m.includes[j].target.line)
                    && (!used_name(m, lint_alias(m.includes[j])) || declares(m, lint_alias(m.includes[j])));
                assert(all[i].line == Some(m.includes[j].target.line));
            } else {
                assert(all[i].line == Some(m.includes[n - 1].target.line));
                assert(!used_name(m, lint_alias(inc)) || declares(m, lint_alias(inc)));
            }
        }
    }
}

/// An import used under its local name is not reported unused: when the
/// local name of import `n` (its `as` alias, or else the last segment of its
/// path) is a single-name dependency of some target, no local target has
/// that name, and no other import is on its line, no unused-import warning
/// is reported on its line.
pub proof fn lemma_used_import_not_reported(file: Seq<char>, m: ParsedModuleView, n: int, name: Seq<char>)
    requires
        0 <= n < m.includes.len(),
        m.includes[n].alias == Some(name) || (m.includes[n].alias is None && m.includes[n].target.path.len() > 0
            && name == m.includes[n].target.path.last()),
        used_name(m, name),
        !declares(m, name),
        forall|k: int| 0 <= k < m.includes.len() && k != n ==> (#[trigger] m.includes[k]).target.line != m.includes[n].target.line,
    ensures
        forall|i: int| 0 <= i < lint_warnings(file, m).len() ==> !((#[trigger] lint_warnings(file, m)[i]).code == "L003"@
            && lint_warnings(file, m)[i].line == Some(m.includes[n].target.line)),
{
    let tw = target_warnings(file, m.targets, m.targets.len());
    let iw = import_warnings(file, m, m.includes.len());
    lemma_target_warnings_not_unused(file, m.targets, m.targets.len());
    lemma_unused_import_origin(file, m, m.includes.len());
    assert(lint_alias(m.includes[n]) == name);
    assert forall|i: int| 0 <= i < lint_warnings(file, m).len() implies !((#[trigger] lint_warnings(file, m)[i]).code == "L003"@
        && lint_warnings(file, m)[i].line == Some(m.includes[n].target.line)) by {
        let w = lint_warnings(file, m)[i];
        if i < tw.len() {
            assert(w == tw[i]);
        } else {
            assert(w == iw[i - tw.len()]);
            if w.code == "L003"@ && w.line == Some(m.includes[n].target.line) {
                let j = choose|j: int| 0 <= j < m.includes.len() && j < m.includes.len()
                    && iw[i - tw.len()].line == Some(#[trigger] m.includes[j].target.line)
                    && (!used_name(m, lint_alias(m.includes[j])) || declares(m, lint_alias(m.includes[j])));
                assert(j == n);
            }
        }
    }
}

} // verus!
