use std::time::Duration;

use makedown::logging::{single_line, ColorChoice, Logger};
use makedown::model::{ModulePath, TargetId};
use makedown::parser::{ParseMode, Parser};
use makedown::project::AnalysisDiagnostic;

fn seconds(elapsed: Duration) -> String {
    format!("{:.2}", elapsed.as_secs_f64())
}

#[test]
fn auto_color_follows_terminal_detection() {
    assert!(!ColorChoice::Auto.enabled(false));
    assert!(ColorChoice::Auto.enabled(true));
    assert!(ColorChoice::Always.enabled(false));
    assert!(!ColorChoice::Never.enabled(true));
}

#[test]
fn plain_logs_align_labels_and_escape_newlines() {
    let mut logger = Logger::new(false);
    logger.parsing(&ModulePath::root());
    logger.error("first\nsecond\x1b");
    logger.finished(
        "checked target `build`",
        &seconds(Duration::from_millis(15)),
    );

    assert_eq!(
        logger.output(),
        "     Parsing <root>\n       Error first second\n    Finished checked target `build` in 0.01s\n"
    );
}

#[test]
fn colored_logs_use_cyan_progress_and_red_errors() {
    let mut logger = Logger::new(true);
    logger.compiling(&TargetId::new(ModulePath::root(), "build"));
    logger.error("failed");
    logger.finished("built target `build`", &seconds(Duration::ZERO));

    assert_eq!(
        logger.output(),
        "\x1b[36m   Compiling\x1b[0m build\n\x1b[31m       Error\x1b[0m failed\n\x1b[1;36m    Finished\x1b[0m built target `build` in 0.00s\n"
    );
}

#[test]
fn default_color_choice_is_auto() {
    assert_eq!(ColorChoice::default(), ColorChoice::Auto);
}

#[test]
fn single_line_replaces_controls_and_trims_the_end() {
    assert_eq!(single_line("a\tb\r\nc\n\n"), "a b  c");
    assert_eq!(single_line("  lead"), "  lead");
    assert_eq!(single_line(""), "");
}

#[test]
fn diagnostics_are_logged_with_location_code_and_severity() {
    let parsed = Parser::new(ParseMode::DryRun).parse(ModulePath::root(), "broken\n");
    let error = AnalysisDiagnostic::from_parse("main.mf", &parsed.diagnostics()[0]);
    let warning = AnalysisDiagnostic::warning("main.mf", 3, "L001", "unused\nimport".to_owned());
    let mut logger = Logger::new(false);
    logger.diagnostic(&error);
    logger.diagnostic(&warning);
    logger.parsing(&ModulePath::parse("catalog::api").unwrap());
    logger.warning("careful");
    assert_eq!(
        logger.take_output(),
        format!(
            "       Error main.mf:1 [E002] {}\n     Warning main.mf:3 [L001] unused import\n     Parsing catalog::api\n     Warning careful\n",
            single_line(parsed.diagnostics()[0].message())
        )
    );
    assert_eq!(logger.output(), "");
}
