use makedown::formatter::{FormatError, Formatter};
use makedown::model::ModulePath;
use makedown::parser::{ParseMode, Parser};

#[test]
fn formats_without_changing_meaning() {
    let source = ">  crate::other::x  \n---\n##  run  \n  # not a target\n\nparagraph  \n>  x \n-  spec  \n---\n>  run \n";
    let formatted = Formatter::new().format(source).unwrap();
    assert!(formatted.contains("# run\n  # not a target\n\nparagraph\n> x\n- spec"));
    assert_eq!(Formatter::new().format(&formatted).unwrap(), formatted);
}

#[test]
fn normalizes_boundaries_but_keeps_description_paragraphs() {
    let source = "> crate::a::x\n> crate::a::y\n\n\n---\n\n\n# first\nfirst paragraph\n\nsecond paragraph\n\n\n# second\n> x\n> y\n- done\n---\n> second\n";
    let formatted = Formatter::new().format(source).unwrap();
    assert!(formatted.contains("> crate::a::y\n\n---\n\n# first"));
    assert!(formatted.contains("first paragraph\n\nsecond paragraph\n\n# second"));
    assert!(formatted.contains("# second\n> x\n> y\n- done\n\n---"));
    assert_eq!(Formatter::new().format(&formatted).unwrap(), formatted);
}

#[test]
fn keeps_empty_directives() {
    let source = ">  \n---\n# build\n>   \n- spec\n---\n>  \n";
    let formatted = Formatter::new().format(source).unwrap();
    assert_eq!(formatted.matches("\n>\n").count(), 2);
    let parsed = Parser::new(ParseMode::DryRun).parse(ModulePath::root(), &formatted);
    assert_eq!(
        parsed
            .diagnostics()
            .iter()
            .filter(|item| item.code() == "W001")
            .count(),
        3
    );
    assert_eq!(Formatter::new().format(&formatted).unwrap(), formatted);
}

#[test]
fn rejects_errors_and_preserves_crlf() {
    assert!(matches!(
        Formatter::new().format("broken"),
        Err(FormatError::Parse(_))
    ));
    let formatted = Formatter::new().format("---\r\n# x\r\n---\r\n> x").unwrap();
    assert!(formatted.ends_with("\r\n"));
    assert!(!formatted.replace("\r\n", "").contains('\n'));
}

#[test]
fn formatting_gives_the_exact_normal_form() {
    let formatted = Formatter::new()
        .format("---\n##  task  \ntext  \n-  spec  \n---\n>  task\n")
        .unwrap();
    assert_eq!(formatted, "---\n\n# task\ntext\n- spec\n\n---\n\n> task\n");
}

#[test]
fn formatting_a_formatted_text_changes_nothing() {
    let sources = [
        "---\n# a\n---\n> a\n",
        "> crate::x::y as z\n---\n# a\n> z\n- s\n---\n> a\n",
        "---\r\n# x\r\n---\r\n> x",
    ];
    for source in sources {
        let once = Formatter::new().format(source).unwrap();
        assert_eq!(Formatter::new().format(&once).unwrap(), once);
    }
}
