//! The decisions of the `mkd` command line that do not need the disk:
//! reading target arguments, resolving argument paths, naming the input
//! files of a project, and the files that `mkd init` writes.

use vstd::prelude::*;
use crate::config::qualified_target;
use crate::model::{id_text, IdView, ModulePath, Project, TargetId};
use crate::project::{analysis_views, join_component, module_file_path, AnalysisDiagView, AnalysisDiagnostic, AnalysisMode};
use crate::text::{join, owned, push_str};

verus! {

/// How a target is analysed before it is compiled: a check without a
/// template only needs the diagnostics, so it does not build the project;
/// writing a plan, or checking that a template renders, needs the project.
pub fn compile_mode(check: bool, with_template: bool) -> (r: AnalysisMode)
    ensures
        r == (if check && !with_template { AnalysisMode::DryRun } else { AnalysisMode::Build }),
{
    if check && !with_template {
        AnalysisMode::DryRun
    } else {
        AnalysisMode::Build
    }
}

/// Reads a target argument, `target` or `module::target`; the error holds
/// the argument.
pub fn parse_target_id(value: &str) -> (r: Result<TargetId, String>)
    ensures
        match qualified_target(value@) {
            Ok(id) => r matches Ok(t) && t@ == id,
            Err(_) => r matches Err(v) && v@ == value@,
        },
{
    match crate::config::parse_qualified(value) {
        Ok(t) => Ok(t),
        Err(_) => Err(owned(value)),
    }
}

/// A path argument taken relative to the directory the command runs in,
/// unless it is absolute.
pub open spec fn resolved_from(current_directory: Seq<char>, path: Seq<char>) -> Seq<char> {
    if path.len() > 0 && path[0] == '/' {
        path
    } else {
        join_component(current_directory, path)
    }
}

/// Resolves a path argument against the directory the command runs in.
pub fn resolve_from(current_directory: &str, path: &str) -> (r: String)
    ensures
        r@ == resolved_from(current_directory@, path@),
{
    let chars = crate::text::chars_of(path);
    if chars.len() > 0 && chars[0] == '/' {
        return owned(path);
    }
    let base = crate::text::chars_of(current_directory);
    let mut r = owned(current_directory);
    if base.len() > 0 && base[base.len() - 1] != '/' {
        r.push('/');
    }
    push_str(&mut r, path);
    r
}

/// The Markfile of every module of a project, in module order.
pub fn project_input_files(root_file: &str, project: &Project) -> (r: Vec<String>)
    ensures
        r@.len() == project@.modules.len(),
        forall|i: int| 0 <= i < r@.len() ==> #[trigger] r@[i]@ == module_file_path(root_file@, project@.modules[i].namespace),
{
    let analyzer = crate::project::ProjectAnalyzer::new(root_file, crate::project::AnalysisMode::Build);
    let modules = project.modules();
    let mut r: Vec<String> = Vec::new();
    let mut i: usize = 0;
    while i < modules.len()
        invariant
            i <= modules.len(),
            analyzer.root_file_view() == root_file@,
            crate::model::module_views(modules@) == project@.modules,
            r@.len() == i,
            forall|j: int| 0 <= j < i ==> #[trigger] r@[j]@ == module_file_path(root_file@, project@.modules[j].namespace),
        decreases modules.len() - i,
    {
        assert(project@.modules[i as int] == modules@[i as int]@);
        r.push(analyzer.module_file(modules[i].namespace()));
        i = i + 1;
    }
    r
}

/// The TOML notation of a string value, quoted and escaped as the `toml`
/// crate writes it.
pub uninterp spec fn toml_quoted(text: Seq<char>) -> Seq<char>;

/// Calls `toml::Value::String(text).to_string()`, the TOML notation of the
/// string; the contract only names the result, a function of the text.
#[verifier::external_body]
fn toml_string(text: &str) -> (r: String)
    ensures
        r@ == toml_quoted(text@),
{
    toml::Value::String(text.to_owned()).to_string()
}

/// The configuration `mkd init` writes, given the target already written as
/// a TOML string.
pub open spec fn init_config_text(quoted_target: Seq<char>) -> Seq<char> {
    "version = 1\n\n[build]\ndefault = \"main\"\n\n[build.main]\ntarget = "@ + quoted_target
        + "\noutput = \"dist/plan.md\"\n"@
}

/// The configuration for a target written as a TOML string.
pub fn config_for(quoted_target: &str) -> (r: String)
    ensures
        r@ == init_config_text(quoted_target@),
{
    let mut r = owned("version = 1\n\n[build]\ndefault = \"main\"\n\n[build.main]\ntarget = ");
    push_str(&mut r, quoted_target);
    push_str(&mut r, "\noutput = \"dist/plan.md\"\n");
    r
}

/// The configuration `mkd init` writes: one default profile `main` that
/// builds the target to `dist/plan.md`.
pub fn init_config(target: &TargetId) -> (r: String)
    ensures
        r@ == init_config_text(toml_quoted(id_text(target@))),
{
    let text = target.to_string();
    let quoted = toml_string(text.as_str());
    config_for(quoted.as_str())
}

/// The Markfile `mkd init` writes for a new project with one target.
pub open spec fn init_markfile_text(name: Seq<char>) -> Seq<char> {
    "---\n# "@ + name + "\n描述要完成的工作。\n- 明确一条可核验的验收规格。\n---\n> "@ + name + "\n"@
}

/// The Markfile of a new project with one target.
pub fn init_markfile(name: &str) -> (r: String)
    ensures
        r@ == init_markfile_text(name@),
{
    let mut r = owned("---\n# ");
    push_str(&mut r, name);
    push_str(&mut r, "\n描述要完成的工作。\n- 明确一条可核验的验收规格。\n---\n> ");
    push_str(&mut r, name);
    push_str(&mut r, "\n");
    r
}

/// Why the target of a new project cannot be used.
#[derive(Debug, PartialEq, Eq)]
pub enum InitProblem {
    /// The argument is not a target; it holds the argument.
    InvalidTarget(String),
    /// A new project's target must be in the root module.
    NotLocal,
}

impl InitProblem {
    /// The message that describes the problem.
    pub fn to_string(&self) -> (r: String)
        ensures
            r@ == match self {
                InitProblem::InvalidTarget(v) => "invalid target `"@ + v@ + "`; expected `target` or `module::target`"@,
                InitProblem::NotLocal => "new projects require a local --target name"@,
            },
    {
        match self {
            InitProblem::InvalidTarget(v) => {
                let mut r = owned("invalid target `");
                push_str(&mut r, v.as_str());
                push_str(&mut r, "`; expected `target` or `module::target`");
                r
            },
            InitProblem::NotLocal => owned("new projects require a local --target name"),
        }
    }
}

/// The target of a new project: the given local target, or `start`.
pub fn new_project_target(target: Option<&str>) -> (r: Result<TargetId, InitProblem>)
    ensures
        match target {
            None => r matches Ok(t) && t@ == (Seq::<Seq<char>>::empty(), "start"@),
            Some(v) => match qualified_target(v@) {
                Err(_) => r matches Err(InitProblem::InvalidTarget(a)) && a@ == v@,
                Ok(id) => if id.0.len() == 0 {
                    r matches Ok(t) && t@ == id
                } else {
                    r == Err::<TargetId, InitProblem>(InitProblem::NotLocal)
                },
            },
        },
{
    match target {
        None => Ok(TargetId::new(ModulePath::root(), "start")),
        Some(v) => match parse_target_id(v) {
            Err(a) => Err(InitProblem::InvalidTarget(a)),
            Ok(t) => {
                if t.namespace().is_root() {
                    Ok(t)
                } else {
                    Err(InitProblem::NotLocal)
                }
            },
        },
    }
}

/// The messages of the errors among `d`, in order.
pub open spec fn error_messages(d: Seq<AnalysisDiagView>) -> Seq<Seq<char>>
    decreases d.len(),
{
    if d.len() == 0 {
        seq![]
    } else {
        error_messages(d.drop_last()) + if d.last().error {
            seq![d.last().message]
        } else {
            seq![]
        }
    }
}

/// Why an existing project cannot be initialised for a target: the
/// messages of its errors.
pub open spec fn not_buildable_text(target: IdView, root_file: Seq<char>, d: Seq<AnalysisDiagView>) -> Seq<char> {
    "cannot initialize: target `"@ + id_text(target) + "` in `"@ + root_file + "` is not buildable: "@
        + join(error_messages(d), "; "@)
}

/// The message for an existing project whose target does not build.
pub fn not_buildable_message(target: &TargetId, root_file: &str, diagnostics: &[AnalysisDiagnostic]) -> (r: String)
    ensures
        r@ == not_buildable_text(target@, root_file@, analysis_views(diagnostics@)),
{
    let ghost d = analysis_views(diagnostics@);
    let mut r = owned("cannot initialize: target `");
    let text = target.to_string();
    push_str(&mut r, text.as_str());
    push_str(&mut r, "` in `");
    push_str(&mut r, root_file);
    push_str(&mut r, "` is not buildable: ");
    let ghost prefix = r@;
    let mut count: usize = 0;
    let mut i: usize = 0;
    while i < diagnostics.len()
        invariant
            i <= diagnostics.len(),
            d == analysis_views(diagnostics@),
            count == error_messages(d.take(i as int)).len(),
            count <= i,
            r@ == prefix + join(error_messages(d.take(i as int)), "; "@),
        decreases diagnostics.len() - i,
    {
        let ghost before = error_messages(d.take(i as int));
        assert(d.take(i + 1).drop_last() =~= d.take(i as int));
        assert(d.take(i + 1).last() == diagnostics@[i as int]@);
        if diagnostics[i].severity() == crate::parser::DiagnosticSeverity::Error {
            if count > 0 {
                push_str(&mut r, "; ");
            }
            push_str(&mut r, diagnostics[i].message());
            count = count + 1;
            proof {
                let after = error_messages(d.take(i + 1));
                assert(after =~= before.push(diagnostics@[i as int]@.message));
                assert(after.drop_last() =~= before);
                if before.len() == 0 {
                    assert(after =~= seq![after[0]]);
                }
            }
        } else {
            assert(error_messages(d.take(i + 1)) =~= before);
        }
        i = i + 1;
    }
    assert(d.take(diagnostics.len() as int) =~= d);
    r
}

} // verus!
