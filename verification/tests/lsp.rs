use makedown::linter::Linter;
use makedown::lsp::{
    accepts_change, diagnostic_range, formatting_reply, full_range_end, trim_cr_chars,
    utf16_count, utf16_offset, FormattingReply,
};

#[test]
fn utf16_lengths_count_astral_characters_twice() {
    let text: Vec<char> = "a😀描".chars().collect();
    assert_eq!(utf16_count(&text), 4);
    assert_eq!(utf16_count(&[]), 0);
}

#[test]
fn diagnostic_ranges_cover_the_marked_line_without_carriage_return() {
    assert_eq!(diagnostic_range("😀 broken\r\nnext\n", Some(1)), (0, 9));
    assert_eq!(diagnostic_range("a\nbc\n", Some(2)), (1, 2));
    assert_eq!(diagnostic_range("a\nbc\n", None), (0, 1));
    assert_eq!(diagnostic_range("a\n", Some(9)), (8, 0));
}

#[test]
fn whole_document_range_reads_crlf_as_one_break() {
    assert_eq!(full_range_end("---\n# build\n描述😀  \n-  spec \n---\n> build"), (5, 7));
    assert_eq!(full_range_end("a\r\nb\r\n"), (2, 0));
    assert_eq!(full_range_end(""), (0, 0));
}

#[test]
fn only_newer_whole_text_updates_are_taken() {
    assert!(accepts_change(1, 2, 1, true));
    assert!(!accepts_change(2, 2, 1, true));
    assert!(!accepts_change(1, 2, 0, true));
    assert!(!accepts_change(1, 2, 1, false));
}

#[test]
fn formatting_replies_replace_the_whole_document() {
    assert_eq!(
        formatting_reply("---\n# build\n描述😀  \n-  spec \n---\n> build"),
        FormattingReply::Replace {
            end_line: 5,
            end_character: 7,
            text: "---\n\n# build\n描述😀\n- spec\n\n---\n\n> build\n".to_owned(),
        }
    );
    assert_eq!(
        formatting_reply("---\n\n# build\n\n---\n\n> build\n"),
        FormattingReply::Unchanged
    );
    assert_eq!(formatting_reply("broken"), FormattingReply::SyntaxErrors);
}

#[test]
fn utf16_columns_map_to_byte_offsets() {
    assert_eq!(utf16_offset("a😀b", 0), Some(0));
    assert_eq!(utf16_offset("a😀b", 1), Some(1));
    assert_eq!(utf16_offset("a😀b", 2), None);
    assert_eq!(utf16_offset("a😀b", 3), Some(5));
    assert_eq!(utf16_offset("a😀b", 4), Some(6));
    assert_eq!(utf16_offset("a😀b", 5), None);
}

#[test]
fn carriage_returns_are_trimmed_from_the_end_only() {
    let line: Vec<char> = "\ra\r\r".chars().collect();
    assert_eq!(trim_cr_chars(&line), vec!['\r', 'a']);
}

#[test]
fn lint_reports_quality_warnings_without_errors() {
    let result = Linter::new().lint_source(
        "main.mf",
        "> crate::unused::helper\n> crate::unused::helper\n---\n# build\n---\n> build\n",
    );
    let codes = result
        .diagnostics()
        .iter()
        .map(|d| d.code())
        .collect::<Vec<_>>();
    assert!(codes.contains(&"L001"));
    assert!(codes.contains(&"L002"));
    assert!(codes.contains(&"L003"));
    assert!(codes.contains(&"L004"));
    assert!(!result.has_errors());
}

#[test]
fn lint_keeps_parser_errors_first() {
    let result = Linter::new().lint_source("x.mf", "broken\n");
    assert!(result.has_errors());
    assert_eq!(result.diagnostics()[0].code(), "E002");
    assert_eq!(result.diagnostics()[0].file(), "x.mf");
    assert_eq!(result.diagnostics()[0].line(), Some(1));
}
