use makedown::template::{
    completions, diagnostics, diagnostics_for, is_template_name, TemplateDiagnostic,
    TemplateSyntaxError,
};

#[test]
fn template_diagnostics_check_syntax_and_literal_plan_fields() {
    let source = "😀 {{ 'plan.fake' }} {{ plan.stegs }}\n{# plan.wrong #}\n{% for stage in plan.stages %}{{ stage.index }}{% endfor %}";
    let errors = diagnostics(source);
    assert_eq!(errors.len(), 1);
    assert_eq!(errors[0].code, "T002");
    assert_eq!(errors[0].start, (0, 29));
    assert_eq!(
        errors[0].message,
        "未知的 plan 字段 `stegs`；可用字段：root_target、stages"
    );
    let syntax = diagnostics("{% for stage in plan.stages %}");
    assert_eq!(syntax.len(), 1);
    assert_eq!(syntax[0].code, "T001");
}

#[test]
fn template_diagnostics_skip_non_expressions() {
    let source = "{# plan.fake #}\n{%- raw -%}{{ plan.bad }}{%- endraw -%}\n{{ 'plan.ghost' }}\n{% set other = plan.root_target %}\n{{ other.value }}";
    assert!(diagnostics(source).is_empty());
}

#[test]
fn template_completions_are_contextual() {
    let source = "{{ plan.ro }}\n{% for stage in plan.stages %}{{ stage. }}{% endfor %}\n普通文字 target.";
    let items = completions(source, 0, 10);
    assert_eq!(
        items.iter().map(|item| item.label).collect::<Vec<_>>(),
        ["root_target"]
    );
    assert_eq!(items[0].start, 8);
    let middle = completions("{{ plan.root_target }}", 0, 10);
    assert_eq!(middle[0].end, 19);
    assert!(completions(source, 2, 11).is_empty());
    assert!(completions("{# {{ plan.ro #}", 0, 13).is_empty());
    assert!(completions("{{ 'plan.ro' }}", 0, 11).is_empty());
    assert_eq!(
        completions("{{ target.spe }}", 0, 13)
            .iter()
            .map(|item| item.label)
            .collect::<Vec<_>>(),
        ["specifications"]
    );
}

#[test]
fn a_clean_template_has_no_diagnostics() {
    assert!(diagnostics("# {{ plan.root_target }}\n{% for s in plan.stages %}{{ s.index }}{% endfor %}\n").is_empty());
}

#[test]
fn syntax_errors_are_placed_on_their_range_or_line() {
    let source = "ab\ncdé\n";
    let with_range = TemplateSyntaxError {
        line: Some(2),
        range: Some((3, 5)),
        message: "boom".to_owned(),
    };
    assert_eq!(
        diagnostics_for(source, &Some(with_range)),
        [TemplateDiagnostic { start: (1, 0), end: (1, 2), code: "T001", message: "boom".to_owned() }]
    );
    let inside_a_character = TemplateSyntaxError {
        line: Some(2),
        range: Some((6, 7)),
        message: "boom".to_owned(),
    };
    assert_eq!(
        diagnostics_for(source, &Some(inside_a_character)),
        [TemplateDiagnostic { start: (1, 0), end: (1, 3), code: "T001", message: "boom".to_owned() }]
    );
    let line_only = TemplateSyntaxError { line: None, range: None, message: "x".to_owned() };
    assert_eq!(
        diagnostics_for(source, &Some(line_only)),
        [TemplateDiagnostic { start: (0, 0), end: (0, 2), code: "T001", message: "x".to_owned() }]
    );
    let errors = diagnostics("line one\n{{ plan.root_target\n");
    assert_eq!(errors.len(), 1);
    assert_eq!(errors[0].code, "T001");
}

#[test]
fn template_names_end_in_md_j2() {
    assert!(is_template_name("layout.md.j2"));
    assert!(!is_template_name("layout.md"));
    assert!(!is_template_name("main.mf"));
}

#[test]
fn error_columns_count_characters_after_the_last_line_feed() {
    assert_eq!(makedown::template::error_column("ab\ncd{{", 5), Some(3));
    assert_eq!(makedown::template::error_column("{{ x", 0), Some(1));
    assert_eq!(makedown::template::error_column("é\nxé{{", 6), Some(3));
    assert_eq!(makedown::template::error_column("é\nxé{{", 5), None);
    assert_eq!(makedown::template::error_column("ab", 9), None);
}
