use quill::location::{Location, Range, SourceFileType};
use quill::diagnostic::Severity;
use quill::project::{invalid_utf8_message, missing_quill_toml, quill_toml, read_quill_toml, toml_error_message};

#[test]
fn quill_toml_identifier() {
    let id = quill_toml();
    assert_eq!(id.to_string(), "quill");
    assert_eq!(id.file_type, SourceFileType::Toml);
    assert!(id.module.segments.is_empty());
}

#[test]
fn missing_file() {
    let m = missing_quill_toml();
    assert_eq!(m.message, "'quill.toml' file could not be found");
    assert_eq!(m.severity, Severity::Error);
    assert!(m.diagnostic.range.is_none());
    assert!(m.help.is_empty());
}

#[test]
fn valid_utf8_is_read() {
    assert_eq!(read_quill_toml("name = \"héllo\"".as_bytes()).unwrap(), "name = \"héllo\"");
    assert_eq!(read_quill_toml(b"").unwrap(), "");
}

#[test]
fn invalid_utf8_is_reported() {
    let m = read_quill_toml(b"abc\xff\xfe").unwrap_err();
    assert_eq!(m.message, "'quill.toml' contained invalid UTF-8 after '...abc', bytes were [FF, FE]");
    assert_eq!(m.severity, Severity::Error);
    assert!(m.diagnostic.range.is_none());
}

#[test]
fn invalid_utf8_shows_at_most_twenty_characters_and_ten_bytes() {
    let mut bytes = b"name = \"abcdefghijklmnopqrstuvwxyz".to_vec();
    bytes.extend_from_slice(&[0xc3, 0x28, 1, 2, 3, 4, 5, 6, 7, 8, 9, 10]);
    let m = read_quill_toml(&bytes).unwrap_err();
    assert_eq!(
        m.message,
        "'quill.toml' contained invalid UTF-8 after '...ghijklmnopqrstuvwxyz', bytes were [C3, 28, 01, 02, 03, 04, 05, 06, 07, 08]"
    );
}

#[test]
fn invalid_utf8_message_directly() {
    let m = invalid_utf8_message("", &[0x80]);
    assert_eq!(m.message, "'quill.toml' contained invalid UTF-8 after '...', bytes were [80]");
}

#[test]
fn toml_errors_point_at_their_place() {
    let m = toml_error_message("expected `=`", Some((3, 5)));
    assert_eq!(m.message, "'quill.toml' contained an error: expected `=`");
    let l = Location { line: 3, col: 5 };
    assert_eq!(m.diagnostic.range, Some(Range { start: l, end: l }));
    let n = toml_error_message("eof", None);
    let z = Location { line: 0, col: 0 };
    assert_eq!(n.diagnostic.range, Some(Range { start: z, end: z }));
}
