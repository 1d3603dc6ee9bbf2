use nir::diagnostics::{diagnostic, escape, source_position, source_ref, SourceIndex};
use nir::format::{Diagnostic, ErrorDomain, Recovery, SourceRef};

#[test]
fn pointer_segments_escape_tilde_then_slash() {
    assert_eq!(escape("a/b~c"), "a~1b~0c");
    assert_eq!(escape("~1"), "~01");
    assert_eq!(escape("plain"), "plain");
}

#[test]
fn tool_errors_take_the_first_error_code_word() {
    let d = diagnostic("loading failed: E_TEXT_ID: unknown contract intro");
    assert_eq!(d.code, "E_TEXT_ID");
    assert_eq!(d.location, "project");
    assert_eq!(d.message, "loading failed: E_TEXT_ID: unknown contract intro");
    let x = d.details.unwrap();
    assert_eq!(x.domain, ErrorDomain::Content);
    assert_eq!(x.operation, "project");
    assert_eq!(x.stage, "tool");
    assert_eq!(x.recovery, vec![Recovery::FixContent]);
    assert_eq!(diagnostic("nothing to see").code, "E_TOOL");
    assert_eq!(diagnostic("xE_NOT_A_CODE").code, "E_TOOL");
    assert_eq!(diagnostic("a-E_FIRST b E_SECOND").code, "E_FIRST");
}

#[test]
fn positions_count_lines_and_byte_columns() {
    assert_eq!(source_position(b"ab\ncd", 4), (2, 2));
    assert_eq!(source_position(b"ab\ncd", 0), (1, 1));
    assert_eq!(source_position("é\nx".as_bytes(), 2), (1, 3));
    let offsets = vec![("/scenes/s".to_string(), 3usize)];
    let r = source_ref("story.json", b"{\n  \"s\"", &offsets, "/scenes/s".to_string());
    assert_eq!((r.line, r.column), (2, 2));
    let unknown = source_ref("story.json", b"{}", &offsets, "/x".to_string());
    assert_eq!((unknown.line, unknown.column), (1, 1));
}

fn at(file: &str, line: usize) -> SourceRef {
    SourceRef { file: file.to_string(), line, column: 1, pointer: "/p".to_string() }
}

#[test]
fn annotation_prefers_the_reference_then_the_declaration() {
    let mut index = SourceIndex::new();
    index.declare("check:scene".to_string(), at("decl.json", 3));
    index.declare_first("check:scene".to_string(), at("other.json", 9));
    index.declare("scene".to_string(), at("loc.json", 4));
    let d = index.annotate(Diagnostic::new("E_BLOCK", "scene", "missing"));
    let x = d.details.unwrap();
    assert_eq!(x.operation, "check");
    assert_eq!(x.stage, "validate");
    assert_eq!(x.source.unwrap().file, "decl.json");
    assert_eq!(x.references, vec!["scene".to_string(), "missing".to_string()]);
    assert_eq!(x.hint.unwrap(), "Declare the target block in this function or correct its logical ID.");
    index.refer("check:scene".to_string(), "missing".to_string(), at("ref.json", 7));
    let d = index.annotate(Diagnostic::new("E_GATE", "scene", "missing"));
    let x = d.details.unwrap();
    assert_eq!(x.source.unwrap().file, "ref.json");
    assert_eq!(x.hint.unwrap(), "Check the locale bundle against the text contract and preserve Gate order.");
    let d = index.annotate(Diagnostic::new("E_OTHER", "nowhere", "m"));
    let x = d.details.unwrap();
    assert!(x.source.is_none());
    assert_eq!(x.hint.unwrap(), "Check this logical declaration and its references against the project schema.");
}

#[test]
fn annotation_keeps_existing_classification() {
    let index = SourceIndex::new();
    let d = Diagnostic::new("E_UNINITIALIZED", "f/b", "x").classified(ErrorDomain::Core, "scenes", "run", vec![]);
    let x = index.annotate(d).details.unwrap();
    assert_eq!(x.domain, ErrorDomain::Core);
    assert_eq!(x.operation, "scenes");
    assert_eq!(x.hint.unwrap(), "Assign the local on every incoming control-flow path before reading it.");
}
