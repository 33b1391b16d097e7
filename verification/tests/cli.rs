use makedown::cli::{
    config_for, init_config, init_markfile, new_project_target, not_buildable_message,
    parse_target_id, project_input_files, resolve_from, InitProblem,
};
use makedown::model::{Module, ModulePath, Project, TargetId};
use makedown::parser::{ParseMode, Parser};
use makedown::project::{AnalysisDiagnostic, AnalysisMode};

fn id(namespace: ModulePath, name: &str) -> TargetId {
    TargetId::new(namespace, name)
}

#[test]
fn target_parser_accepts_root_and_namespaced_targets() {
    assert_eq!(parse_target_id("build").unwrap(), id(ModulePath::root(), "build"));
    assert_eq!(
        parse_target_id("catalog::api::publish").unwrap(),
        id(ModulePath::parse("catalog::api").unwrap(), "publish")
    );
}

#[test]
fn target_parser_rejects_invalid_names() {
    for target in [
        "",
        "catalog::::build",
        "catalog::",
        "bad name",
        "bad`name",
        "bad/name",
        "bad\tname",
        "catalog::.",
    ] {
        assert!(parse_target_id(target).is_err(), "{target}");
    }
    assert_eq!(
        parse_target_id("😀build").unwrap(),
        id(ModulePath::root(), "😀build")
    );
}

#[test]
fn rejected_target_arguments_are_handed_back() {
    assert_eq!(parse_target_id("bad::"), Err("bad::".to_owned()));
}

#[test]
fn relative_arguments_resolve_against_the_working_directory() {
    assert_eq!(resolve_from("/work", "main.mf"), "/work/main.mf");
    assert_eq!(resolve_from("/work/", "nested/main.mf"), "/work/nested/main.mf");
    assert_eq!(resolve_from("/work", "/abs/main.mf"), "/abs/main.mf");
}

#[test]
fn init_writes_a_quoted_target_into_the_default_profile() {
    let config = init_config(&id(ModulePath::root(), "start"));
    assert_eq!(
        config,
        "version = 1\n\n[build]\ndefault = \"main\"\n\n[build.main]\ntarget = \"start\"\noutput = \"dist/plan.md\"\n"
    );
    let nested = init_config(&id(ModulePath::parse("guide").unwrap(), "write"));
    assert!(nested.contains("target = \"guide::write\"\n"));
    assert_eq!(config_for("'x'"), config.replace("\"start\"", "'x'"));
}

#[test]
fn init_writes_a_one_target_markfile() {
    let markfile = init_markfile("start");
    assert_eq!(
        markfile,
        "---\n# start\n描述要完成的工作。\n- 明确一条可核验的验收规格。\n---\n> start\n"
    );
    let parsed = Parser::new(ParseMode::Build).parse(ModulePath::root(), &markfile);
    assert!(!parsed.has_errors());
    assert!(parsed.diagnostics().is_empty());
}

#[test]
fn new_projects_need_a_local_target() {
    assert_eq!(new_project_target(None), Ok(id(ModulePath::root(), "start")));
    assert_eq!(
        new_project_target(Some("publish")),
        Ok(id(ModulePath::root(), "publish"))
    );
    assert_eq!(
        new_project_target(Some("guide::write")),
        Err(InitProblem::NotLocal)
    );
    assert_eq!(
        new_project_target(Some("bad name")),
        Err(InitProblem::InvalidTarget("bad name".to_owned()))
    );
    assert_eq!(
        InitProblem::NotLocal.to_string(),
        "new projects require a local --target name"
    );
    assert_eq!(
        InitProblem::InvalidTarget("x y".to_owned()).to_string(),
        "invalid target `x y`; expected `target` or `module::target`"
    );
}

#[test]
fn input_files_follow_the_module_layout() {
    let mut project = Project::new(ModulePath::root());
    project.add_module(Module::new(ModulePath::root())).unwrap();
    project
        .add_module(Module::new(ModulePath::parse("catalog::api").unwrap()))
        .unwrap();
    assert_eq!(
        project_input_files("/p/main.mf", &project),
        ["/p/main.mf", "/p/catalog/api.mf"]
    );
}

#[test]
fn not_buildable_message_lists_only_errors() {
    let parsed = Parser::new(ParseMode::DryRun).parse(ModulePath::root(), "broken\n");
    let error = AnalysisDiagnostic::from_parse("main.mf", &parsed.diagnostics()[0]);
    let warning = AnalysisDiagnostic::warning("main.mf", 2, "L001", "unused".to_owned());
    let message = not_buildable_message(
        &id(ModulePath::root(), "start"),
        "main.mf",
        &[warning, error],
    );
    assert_eq!(
        message,
        format!(
            "cannot initialize: target `start` in `main.mf` is not buildable: {}",
            parsed.diagnostics()[0].message()
        )
    );
}

#[test]
fn only_a_check_without_a_template_skips_building_the_project() {
    assert_eq!(makedown::cli::compile_mode(true, false), AnalysisMode::DryRun);
    assert_eq!(makedown::cli::compile_mode(true, true), AnalysisMode::Build);
    assert_eq!(makedown::cli::compile_mode(false, false), AnalysisMode::Build);
    assert_eq!(makedown::cli::compile_mode(false, true), AnalysisMode::Build);
}
