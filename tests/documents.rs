use mammal::converter::ConverterState;
use mammal::document::{classify, extension, plan_read, DocumentKind, FromType, ReadPlan};

#[test]
fn docx_format_name() {
    assert_eq!(FromType::Docx.to_string(), "docx");
}

#[test]
fn extension_is_text_after_last_dot() {
    assert_eq!(extension("notes.md"), "md");
    assert_eq!(extension("archive.tar.gz"), "gz");
    assert_eq!(extension("dir.v2/report.docx"), "docx");
    assert_eq!(extension("README"), "README");
    assert_eq!(extension("trailing."), "");
    assert_eq!(extension(""), "");
}

#[test]
fn classify_by_extension() {
    assert_eq!(classify("notes.md"), DocumentKind::Markdown);
    assert_eq!(classify("a.txt"), DocumentKind::PlainText);
    assert_eq!(classify("table.csv"), DocumentKind::PlainText);
    assert_eq!(classify("record.json"), DocumentKind::PlainText);
    assert_eq!(classify("report.docx"), DocumentKind::RichDocument(FromType::Docx));
    assert_eq!(classify("image.png"), DocumentKind::Unsupported);
    assert_eq!(classify("md"), DocumentKind::Markdown);
    assert_eq!(classify("notes.MD"), DocumentKind::Unsupported);
    assert_eq!(classify("notes.md.bak"), DocumentKind::Unsupported);
}

#[test]
fn markdown_is_read_verbatim() {
    assert!(matches!(plan_read("notes.md", ConverterState::Uninitialized), ReadPlan::Verbatim));
    assert!(matches!(plan_read("notes.md", ConverterState::Ready), ReadPlan::Verbatim));
    assert!(matches!(plan_read("data.csv", ConverterState::Failed), ReadPlan::Verbatim));
}

#[test]
fn docx_is_converted_to_markdown_once_ready() {
    match plan_read("report.docx", ConverterState::Ready) {
        ReadPlan::Convert(args) => {
            assert_eq!(args, vec!["--from=docx".to_string(), "--to=markdown".to_string()]);
        }
        _ => panic!("expected a conversion"),
    }
}

#[test]
fn docx_needs_a_ready_converter() {
    assert!(matches!(
        plan_read("report.docx", ConverterState::Uninitialized),
        ReadPlan::ConverterUnavailable
    ));
    assert!(matches!(
        plan_read("report.docx", ConverterState::Failed),
        ReadPlan::ConverterUnavailable
    ));
}

#[test]
fn png_is_unsupported() {
    match plan_read("image.png", ConverterState::Ready) {
        ReadPlan::Reply(text) => assert_eq!(text, "Unsupported file type"),
        _ => panic!("expected the unsupported reply"),
    }
}
