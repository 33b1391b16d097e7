use std::collections::BTreeSet;

use makedown::model::{ModulePath, TargetId};
use makedown::parser::DiagnosticSeverity;
use makedown::project::{discover_module, load_order, AnalysisMode, AnalysisResult, AnalysisState, ProjectAnalyzer};

const ROOT: &str = "/p/main.mf";

fn path(path: &str) -> ModulePath {
    ModulePath::parse(path).unwrap()
}

fn analyze_with(
    files: &[(&str, &str)],
    mode: AnalysisMode,
    start: TargetId,
    seen: &mut Vec<String>,
) -> AnalysisResult {
    let analyzer = ProjectAnalyzer::new(ROOT, mode);
    let mut state = AnalysisState::new(&analyzer, Some(start));
    while let Some(request) = state.next_module() {
        if !request.namespace().is_root() && request.file() == ROOT {
            state.alias_root(&request);
            continue;
        }
        match files
            .iter()
            .find(|(name, _)| format!("/p/{name}") == request.file())
        {
            Some((_, source)) => {
                seen.push(request.namespace().to_string());
                state.parse_source(&request, source);
            }
            None => state.read_failed(&request, "No such file or directory"),
        }
    }
    state.resolve()
}

fn analyze(files: &[(&str, &str)], mode: AnalysisMode, start: TargetId) -> AnalysisResult {
    analyze_with(files, mode, start, &mut Vec::new())
}

fn codes(result: &AnalysisResult) -> Vec<String> {
    result
        .diagnostics()
        .iter()
        .map(|d| d.code().to_owned())
        .collect()
}

#[test]
fn modules_are_read_in_import_order() {
    let mut seen = Vec::new();
    let result = analyze_with(
        &[
            ("main.mf", "> crate::shared::check\n---\n# run\n> check\n---\n> run\n"),
            ("shared.mf", "---\n# check\n---\n> check\n"),
        ],
        AnalysisMode::Build,
        TargetId::new(ModulePath::root(), "run"),
        &mut seen,
    );
    assert!(!result.has_errors());
    assert_eq!(seen, ["", "shared"]);
}

#[test]
fn only_modules_reachable_from_the_start_module_are_loaded() {
    let result = analyze(
        &[
            ("main.mf", "---\n# root\n---\n> root\n"),
            ("app.mf", "> crate::shared::check\n---\n# run\n> check\n---\n> run\n"),
            ("shared.mf", "---\n# check\n---\n> check\n"),
            ("broken.mf", "not valid"),
        ],
        AnalysisMode::Build,
        TargetId::new(path("app"), "run"),
    );
    let project = result.project().unwrap();

    assert!(!result.has_errors());
    assert!(project.module(&path("app")).is_some());
    assert!(project.module(&path("shared")).is_some());
    assert!(project.module(&path("broken")).is_none());
}

#[test]
fn self_and_super_follow_the_file_directories() {
    let result = analyze(
        &[
            ("main.mf", "---\n# root_check\n---\n> root_check\n"),
            (
                "catalog/api.mf",
                "> self::model::check as model_check\n> super::root_check\n---\n# publish\n> model_check\n> root_check\n---\n> publish\n",
            ),
            ("catalog/model.mf", "---\n# check\n---\n> check\n"),
        ],
        AnalysisMode::Build,
        TargetId::new(path("catalog::api"), "publish"),
    );
    let target = result
        .project()
        .unwrap()
        .module(&path("catalog::api"))
        .unwrap()
        .target("publish")
        .unwrap();

    assert_eq!(
        target.dependencies(),
        &[
            TargetId::new(path("catalog::model"), "check"),
            TargetId::new(ModulePath::root(), "root_check"),
        ]
    );
}

#[test]
fn alias_collisions_private_imports_and_cycles_are_reported() {
    let result = analyze(
        &[
            (
                "main.mf",
                "> crate::one::check\n> crate::two::check\n> crate::private::hidden\n---\n# run\n> check\n---\n> run\n",
            ),
            ("one.mf", "---\n# check\n> looped\n# looped\n> check\n---\n> check\n> looped\n"),
            ("two.mf", "---\n# check\n---\n> check\n"),
            ("private.mf", "---\n# hidden\n---\n"),
        ],
        AnalysisMode::Build,
        TargetId::new(ModulePath::root(), "run"),
    );
    let codes = codes(&result);

    assert!(result.project().is_none());
    assert!(codes.contains(&"P003".to_owned()));
    assert!(codes.contains(&"P009".to_owned()));
    assert!(codes.contains(&"P014".to_owned()));
}

#[test]
fn dry_run_never_hands_out_a_project() {
    let result = analyze(
        &[("main.mf", "---\n# run\n---\n> run\n")],
        AnalysisMode::DryRun,
        TargetId::new(ModulePath::root(), "run"),
    );

    assert!(!result.has_errors());
    assert!(result.project().is_none());
    assert!(result.into_project().is_none());
}

#[test]
fn dry_run_reports_every_reference_failure() {
    let result = analyze(
        &[
            (
                "main.mf",
                "> crate\n> unknown::thing\n> crate::..::target\n> crate::shared::missing\n---\n# run\n> crate::shared::ok\n> unknown\n---\n> run\n",
            ),
            ("shared.mf", "---\n# ok\n---\n> ok\n"),
        ],
        AnalysisMode::DryRun,
        TargetId::new(ModulePath::root(), "run"),
    );
    let codes = codes(&result).into_iter().collect::<BTreeSet<_>>();

    assert!(result.project().is_none());
    for code in ["P004", "P005", "P008", "P010", "P011", "P012"] {
        assert!(codes.contains(code), "missing diagnostic {code}");
    }
}

#[test]
fn importing_a_target_twice_keeps_one_import() {
    let result = analyze(
        &[
            (
                "main.mf",
                "> crate::shared::check\n> crate::shared::check\n---\n# run\n> check\n---\n> run\n",
            ),
            ("shared.mf", "---\n# check\n---\n> check\n"),
        ],
        AnalysisMode::Build,
        TargetId::new(ModulePath::root(), "run"),
    );

    assert!(!result.has_errors());
    assert_eq!(result.project().unwrap().root().unwrap().includes().len(), 1);
}

#[test]
fn the_root_file_cannot_be_loaded_again_under_a_name() {
    let result = analyze(
        &[("main.mf", "> crate::main::root\n---\n# root\n---\n> root\n")],
        AnalysisMode::Build,
        TargetId::new(ModulePath::root(), "root"),
    );

    assert!(codes(&result).contains(&"P016".to_owned()));
    assert!(result.project().is_none());
}

#[test]
fn super_cannot_leave_the_project_root() {
    let result = analyze(
        &[("main.mf", "> super::outside::check\n---\n# run\n---\n> run\n")],
        AnalysisMode::Build,
        TargetId::new(ModulePath::root(), "run"),
    );

    assert!(result.project().is_none());
    assert!(codes(&result).contains(&"P015".to_owned()));
}

#[test]
fn missing_modules_and_start_targets_are_reported_as_errors() {
    let result = analyze(
        &[("main.mf", "> crate::missing::target\n---\n# run\n---\n> run\n")],
        AnalysisMode::Build,
        TargetId::new(ModulePath::root(), "absent"),
    );
    let codes = codes(&result);

    assert!(codes.contains(&"P001".to_owned()));
    assert!(codes.contains(&"P013".to_owned()));
    assert_eq!(result.diagnostics()[0].severity(), DiagnosticSeverity::Error);
    assert_eq!(result.diagnostics()[0].file(), "/p/missing.mf");
    assert!(result.diagnostics()[0].line().is_none());
    assert_eq!(
        result.diagnostics()[0].message(),
        "cannot read module `missing`: No such file or directory"
    );
}

#[test]
fn module_files_sit_below_the_root_directory() {
    let analyzer = ProjectAnalyzer::new(ROOT, AnalysisMode::Build);
    assert_eq!(analyzer.module_file(&ModulePath::root()), ROOT);
    assert_eq!(analyzer.module_file(&path("a::b::c")), "/p/a/b/c.mf");
    assert_eq!(analyzer.root_file(), ROOT);
    assert_eq!(analyzer.mode(), AnalysisMode::Build);
}

#[test]
fn a_healthy_project_compiles() {
    let result = analyze(
        &[
            ("main.mf", "> crate::lib::base\n---\n# run\n> base\n- runs\n---\n> run\n"),
            ("lib.mf", "---\n# base\nBase work.\n- based\n---\n> base\n"),
        ],
        AnalysisMode::Build,
        TargetId::new(ModulePath::root(), "run"),
    );
    let project = result.into_project().unwrap();
    let plan = makedown::compiler::Compiler::new()
        .plan(&project, TargetId::new(ModulePath::root(), "run"))
        .unwrap();
    assert_eq!(plan.stages().len(), 2);
    assert_eq!(plan.stages()[0].targets()[0].id().to_string(), "lib::base");
}

#[test]
fn cycles_are_reported_exactly_when_dependencies_loop() {
    let looped = analyze(
        &[("main.mf", "---\n# a\n> b\n# b\n> c\n# c\n> a\n# d\n---\n> d\n")],
        AnalysisMode::DryRun,
        TargetId::new(ModulePath::root(), "d"),
    );
    let loop_codes = codes(&looped);
    assert_eq!(loop_codes.iter().filter(|c| *c == "P014").count(), 1);
    assert!(looped.diagnostics().iter().any(|d| d.code() == "P014"
        && d.message() == "dependency cycle: a -> b -> c -> a"));

    let chain = analyze(
        &[("main.mf", "---\n# a\n> b\n# b\n> c\n# c\n---\n> a\n")],
        AnalysisMode::Build,
        TargetId::new(ModulePath::root(), "a"),
    );
    assert!(!codes(&chain).contains(&"P014".to_owned()));
    let project = chain.project().unwrap();
    let plan = makedown::compiler::Compiler::new()
        .plan(project, TargetId::new(ModulePath::root(), "a"))
        .unwrap();
    assert_eq!(plan.stages().len(), 3);
}

#[test]
fn discovered_markfiles_name_modules_without_their_ending() {
    let mut modules = vec![ModulePath::root()];
    let parts = |v: &[&str]| v.iter().map(|p| p.to_string()).collect::<Vec<_>>();
    assert!(discover_module(&mut modules, "/p/catalog/publish.mf", parts(&["catalog", "publish.mf"])).is_none());
    assert_eq!(modules.len(), 2);
    assert_eq!(modules[1].to_string(), "catalog::publish");
    let duplicate = discover_module(&mut modules, "/p/catalog/publish.mf", parts(&["catalog", "publish.mf"])).unwrap();
    assert_eq!(duplicate.code(), "P017");
    assert_eq!(duplicate.message(), "duplicate module path `catalog::publish`");
    assert_eq!(modules.len(), 2);
    let invalid = discover_module(&mut modules, "/p/bad name.mf", parts(&["bad name.mf"])).unwrap();
    assert_eq!(invalid.code(), "P017");
    assert_eq!(modules.len(), 2);
}

#[test]
fn scanned_modules_are_queued_from_the_greatest_path_to_the_root() {
    let order = load_order(vec![
        ModulePath::root(),
        path("catalog"),
        path("catalog::api"),
        path("blog"),
    ]);
    let names: Vec<String> = order.iter().map(|m| m.to_string()).collect();
    assert_eq!(names, vec!["catalog::api", "catalog", "blog", ""]);
}

#[test]
fn build_and_dry_runs_report_the_same_diagnostics() {
    let files = [
        ("main.mf", "> crate::missing::thing\n---\n# run\n> helper\n# helper\n> nowhere\n# a\n> b\n# b\n> a\n---\n> run\n"),
    ];
    for start in ["run", "absent"] {
        let built = analyze(&files, AnalysisMode::Build, TargetId::new(ModulePath::root(), start));
        let dry = analyze(&files, AnalysisMode::DryRun, TargetId::new(ModulePath::root(), start));
        assert_eq!(built.diagnostics(), dry.diagnostics());
        assert!(dry.project().is_none());
    }
}

#[test]
fn imports_are_recorded_in_ascending_name_order() {
    let result = analyze(
        &[
            ("main.mf", "> crate::shared::zeta\n> crate::shared::alpha\n---\n# run\n> zeta\n> alpha\n---\n> run\n"),
            ("shared.mf", "---\n# alpha\n# zeta\n---\n> alpha\n> zeta\n"),
        ],
        AnalysisMode::Build,
        TargetId::new(ModulePath::root(), "run"),
    );
    assert!(!result.has_errors(), "{:?}", result.diagnostics());
    let project = result.into_project().unwrap();
    let names: Vec<String> = project.root().unwrap().includes().iter().map(|id| id.to_string()).collect();
    assert_eq!(names, vec!["shared::alpha", "shared::zeta"]);
}

#[test]
fn each_dependency_leading_back_is_reported_with_its_path() {
    let looped = analyze(
        &[("main.mf", "---\n# a\n> b\n> a\n# b\n> a\n---\n> a\n")],
        AnalysisMode::Build,
        TargetId::new(ModulePath::root(), "a"),
    );
    let cycles: Vec<(String, Option<usize>, String)> = looped
        .diagnostics()
        .iter()
        .filter(|d| d.code() == "P014")
        .map(|d| (d.file().to_owned(), d.line(), d.message().to_owned()))
        .collect();
    assert_eq!(
        cycles,
        vec![
            ("/p/main.mf".to_owned(), None, "dependency cycle: a -> b -> a".to_owned()),
            ("/p/main.mf".to_owned(), None, "dependency cycle: a -> a".to_owned()),
        ]
    );
}
