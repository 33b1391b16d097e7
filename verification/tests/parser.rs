use makedown::model::ModulePath;
use makedown::parser::{DiagnosticSeverity, ParseMode, Parser};

fn path(path: &str) -> ModulePath {
    ModulePath::parse(path).unwrap()
}

#[test]
fn build_mode_parses_a_valid_module_and_preserves_unresolved_paths() {
    let source = ">
> crate::shared::lint as shared_lint
---
### build
> prepare
Build the documentation.\x20\x20
- The documentation renders successfully.
---
> build
";
    let result = Parser::new(ParseMode::Build).parse(path("guide"), source);
    let module = result.module().unwrap();

    assert!(!result.has_errors());
    assert_eq!(module.namespace(), &path("guide"));
    assert!(module.includes()[0].target().path().is_empty());
    assert_eq!(module.includes()[1].alias(), Some("shared_lint"));
    assert_eq!(
        module.includes()[1].target().path().segments(),
        &["crate", "shared", "lint"]
    );
    assert_eq!(module.targets()[0].line(), 4);
    assert_eq!(module.targets()[0].name(), "build");
    assert_eq!(module.targets()[0].dependencies()[0].line(), 5);
    assert_eq!(
        module.targets()[0].dependencies()[0].path().segments(),
        &["prepare"]
    );
    assert_eq!(module.targets()[0].description(), "Build the documentation.");
    assert_eq!(
        module.targets()[0].specifications(),
        &["The documentation renders successfully."]
    );
    assert_eq!(module.public_targets()[0].name(), "build");
    assert_eq!(result.diagnostics()[0].severity(), DiagnosticSeverity::Warning);
    assert_eq!(result.diagnostics()[0].line(), 1);
}

#[test]
fn parser_continues_after_errors_and_withholds_the_module() {
    let source = "orphan
---
# build
- A specification.
Description after a specification.
---
# invalid-public-section
";
    let result = Parser::new(ParseMode::Build).parse(path("guide"), source);

    assert!(result.has_errors());
    assert!(result.module().is_none());
    assert_eq!(result.partial_module().targets().len(), 1);
    assert_eq!(result.diagnostics().len(), 3);
    assert_eq!(result.diagnostics()[0].code(), "E002");
    assert_eq!(result.diagnostics()[1].code(), "E006");
    assert_eq!(result.diagnostics()[2].code(), "E007");
}

#[test]
fn dry_run_never_returns_a_module_but_retains_diagnostics() {
    let result = Parser::new(ParseMode::DryRun).parse(
        path("guide"),
        "---
# build
Build the documentation.
---
> build
",
    );

    assert!(!result.has_errors());
    assert!(result.module().is_none());
    assert!(result.diagnostics().is_empty());
    assert!(result.into_module().is_none());
}

#[test]
fn include_alias_syntax_is_checked() {
    let result = Parser::new(ParseMode::DryRun).parse(
        path("guide"),
        "> crate::shared::lint alias lint
---
# build
---
> build
",
    );

    assert_eq!(result.diagnostics()[0].code(), "E012");
}

#[test]
fn public_target_declarations_require_local_non_empty_names() {
    let result = Parser::new(ParseMode::DryRun).parse(
        path("guide"),
        "---
# build
---
> crate::guide::build
>
",
    );

    assert_eq!(result.diagnostics()[0].code(), "E008");
    assert_eq!(result.diagnostics()[1].code(), "W001");
}

#[test]
fn parser_requires_both_section_separators() {
    let result = Parser::new(ParseMode::DryRun).parse(path("guide"), "# build\n");

    assert_eq!(result.diagnostics()[0].code(), "E002");
    assert_eq!(result.diagnostics()[1].code(), "E009");
}

#[test]
fn parser_rejects_descriptions_after_specifications_and_indented_markers_are_text() {
    let result = Parser::new(ParseMode::DryRun).parse(
        path("guide"),
        "---
# build
- First specification.
  # not-a-target
---
> build
",
    );

    assert_eq!(result.diagnostics()[0].code(), "E006");
}

#[test]
fn parser_rejects_duplicate_and_undefined_public_targets() {
    let result = Parser::new(ParseMode::DryRun).parse(
        path("guide"),
        "---
# build
# build
---
> missing
",
    );

    assert_eq!(result.diagnostics()[0].code(), "E004");
    assert_eq!(result.diagnostics()[1].code(), "E011");
}

#[test]
fn both_modes_report_the_same_diagnostics() {
    let sources = [
        "---\n# build\n---\n> build\n",
        "orphan\n---\n# a\n- s\ntext\n---\n> b\n",
        "> x y z\n---\n# a\n# a\n---\n>\n",
    ];
    for source in sources {
        let build = Parser::new(ParseMode::Build).parse(path("guide"), source);
        let dry = Parser::new(ParseMode::DryRun).parse(path("guide"), source);
        assert_eq!(build.diagnostics(), dry.diagnostics());
        assert_eq!(build.has_errors(), dry.has_errors());
    }
}

#[test]
fn build_mode_hands_out_a_module_exactly_when_there_is_no_error() {
    let good = Parser::new(ParseMode::Build).parse(path("guide"), "---\n# build\n---\n> build\n");
    assert!(!good.has_errors());
    assert!(good.module().is_some());
    let bad = Parser::new(ParseMode::Build).parse(path("guide"), "---\n# build\n---\n> missing\n");
    assert!(bad.has_errors());
    assert!(bad.module().is_none());
}
