use quill::diagnostic::{Diagnostic, ErrorMessage, HelpMessage, HelpType, Severity};
use quill::emit::{ErrorEmitter, Span, Style};
use quill::location::{Location, ModuleIdentifier, Range, SourceFileIdentifier, SourceFileIdentifierSegment, SourceFileType};
use quill::source_file::{PackageFileSystem, SourceFile, SourceFileLoadError};
use std::time::SystemTime;

fn main_id() -> SourceFileIdentifier {
    SourceFileIdentifier {
        module: ModuleIdentifier { segments: vec![SourceFileIdentifierSegment("core".to_string())] },
        file: SourceFileIdentifierSegment("main".to_string()),
        file_type: SourceFileType::Quill,
    }
}

fn fs_with(text: &str) -> PackageFileSystem {
    let mut fs = PackageFileSystem::new(vec![]);
    fs.insert_source_file(&main_id(), Ok(SourceFile::new(text.to_string(), SystemTime::now())));
    fs
}

fn span_range(sl: u32, sc: u32, el: u32, ec: u32) -> Range {
    Range { start: Location { line: sl, col: sc }, end: Location { line: el, col: ec } }
}

fn texts(lines: &[Vec<Span>]) -> Vec<String> {
    lines.iter().map(|l| l.iter().map(|s| s.text.as_str()).collect::<String>()).collect()
}

#[test]
fn error_on_one_line() {
    let fs = fs_with("let a = 1\nlet b = oops\n");
    let emitter = ErrorEmitter::new(&fs);
    let msg = ErrorMessage::new(
        "bad".to_string(),
        Severity::Error,
        Diagnostic::at(&main_id(), span_range(1, 8, 1, 12)),
    );
    assert!(emitter.can_emit(&msg));
    let lines = emitter.emit(&msg);
    assert_eq!(
        texts(&lines),
        vec![
            "error: bad".to_string(),
            " --> core::main (quill) @ 2:9".to_string(),
            "  |".to_string(),
            "2 | let b = oops".to_string(),
            "  |         ^^^^".to_string(),
            "  |".to_string(),
        ]
    );
    assert_eq!(lines[0][0].style, Style::Red);
    assert_eq!(lines[0][1].style, Style::White);
    assert_eq!(lines[0][3].style, Style::White);
    assert_eq!(lines[1][1].style, Style::Cyan);
    assert_eq!(lines[3][1].style, Style::Cyan);
    assert_eq!(lines[4][3].text, "^^^^");
    assert_eq!(lines[4][3].style, Style::Red);
}

#[test]
fn warning_over_several_lines() {
    let fs = fs_with("let a = 1\nlet b = oops\n");
    let emitter = ErrorEmitter::new(&fs);
    let msg = ErrorMessage::new(
        "careful".to_string(),
        Severity::Warning,
        Diagnostic::at(&main_id(), span_range(0, 4, 1, 3)),
    );
    let lines = emitter.emit(&msg);
    assert_eq!(
        texts(&lines),
        vec![
            "warning: careful".to_string(),
            " --> core::main (quill) @ 1:5".to_string(),
            "  |".to_string(),
            "  |     vvvvv".to_string(),
            "1 | let a = 1".to_string(),
            "2 | let b = oops".to_string(),
            "  | ^^^".to_string(),
            "  |".to_string(),
        ]
    );
    assert_eq!(lines[0][0].style, Style::Yellow);
    assert_eq!(lines[3][3].style, Style::Yellow);
    assert_eq!(lines[6][3].style, Style::Yellow);
}

#[test]
fn line_numbers_are_right_aligned() {
    let text: String = (0..12).map(|i| format!("line{}\n", i)).collect();
    let fs = fs_with(&text);
    let emitter = ErrorEmitter::new(&fs);
    let d = Diagnostic::at(&main_id(), span_range(8, 0, 9, 2));
    let lines = emitter.print_message(&d, Style::Red);
    assert_eq!(
        texts(&lines),
        vec![
            "  --> core::main (quill) @ 9:1".to_string(),
            "   |".to_string(),
            "   | vvvvv".to_string(),
            " 9 | line8".to_string(),
            "10 | line9".to_string(),
            "   | ^^".to_string(),
            "   |".to_string(),
        ]
    );
}

#[test]
fn help_messages_follow_the_message() {
    let fs = fs_with("x = 1\n");
    let emitter = ErrorEmitter::new(&fs);
    let help = HelpMessage {
        message: "try this".to_string(),
        help_type: HelpType::Note,
        diagnostic: Diagnostic::at(&main_id(), span_range(0, 0, 0, 1)),
    };
    let msg = ErrorMessage::new_with_help(
        "oops".to_string(),
        Severity::Error,
        Diagnostic::in_file(&main_id()),
        vec![help],
    );
    let lines = emitter.emit(&msg);
    assert_eq!(
        texts(&lines),
        vec![
            "error: oops".to_string(),
            "--> core::main".to_string(),
            "note: try this".to_string(),
            " --> core::main (quill) @ 1:1".to_string(),
            "  |".to_string(),
            "1 | x = 1".to_string(),
            "  | ^".to_string(),
            "  |".to_string(),
        ]
    );
    assert_eq!(lines[6][3].style, Style::Cyan);
}

#[test]
fn unreadable_file() {
    let mut fs = PackageFileSystem::new(vec![]);
    let err = std::io::Error::new(std::io::ErrorKind::NotFound, "gone");
    fs.insert_source_file(&main_id(), Err(SourceFileLoadError::Io(err)));
    let emitter = ErrorEmitter::new(&fs);
    let d = Diagnostic::at(&main_id(), span_range(0, 0, 0, 1));
    let lines = emitter.print_message(&d, Style::Red);
    assert_eq!(texts(&lines), vec![" --> core::main (quill) @ 1:1".to_string(), "could not read file".to_string()]);
    assert_eq!(lines[1][0].style, Style::Red);
}

#[test]
fn spans_past_the_end_show_what_exists() {
    let fs = fs_with("only\n");
    let emitter = ErrorEmitter::new(&fs);
    let d = Diagnostic::at(&main_id(), span_range(3, 0, 4, 0));
    let lines = emitter.print_message(&d, Style::Red);
    assert_eq!(texts(&lines), vec![" --> core::main (quill) @ 4:1".to_string(), "  |".to_string(), "  |".to_string()]);
}

#[test]
fn undefined_layouts_are_detected() {
    let fs = fs_with("ab\ncd\n");
    let emitter = ErrorEmitter::new(&fs);
    let backwards = Diagnostic::at(&main_id(), span_range(1, 0, 0, 0));
    assert!(!emitter.can_print(&backwards));
    let past_line = Diagnostic::at(&main_id(), span_range(0, 5, 1, 0));
    assert!(!emitter.can_print(&past_line));
    let reversed_columns = Diagnostic::at(&main_id(), span_range(0, 2, 0, 1));
    assert!(!emitter.can_print(&reversed_columns));
    let fine = Diagnostic::at(&main_id(), span_range(0, 2, 1, 1));
    assert!(emitter.can_print(&fine));
}
