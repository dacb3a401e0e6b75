use quill::location::{Location, ModuleIdentifier, Range, SourceFileIdentifier, SourceFileIdentifierSegment, SourceFileType};

fn loc(line: u32, col: u32) -> Location {
    Location { line, col }
}

fn range(a: Location, b: Location) -> Range {
    Range { start: a, end: b }
}

#[test]
fn union_takes_earliest_start_and_latest_end() {
    let a = range(loc(1, 4), loc(2, 0));
    let b = range(loc(0, 9), loc(1, 7));
    let u = a.union(b);
    assert_eq!(u, range(loc(0, 9), loc(2, 0)));
}

#[test]
fn union_is_commutative_on_values() {
    let a = range(loc(3, 1), loc(3, 5));
    let b = range(loc(3, 2), loc(4, 0));
    assert_eq!(a.union(b), b.union(a));
}

#[test]
fn union_is_associative_on_values() {
    let a = range(loc(3, 1), loc(3, 5));
    let b = range(loc(0, 2), loc(1, 0));
    let c = range(loc(7, 2), loc(7, 3));
    assert_eq!(a.union(b).union(c), a.union(b.union(c)));
}

#[test]
fn union_with_itself_is_itself() {
    let a = range(loc(5, 5), loc(6, 1));
    assert_eq!(a.union(a), a);
}

#[test]
fn locations_order_by_line_then_column() {
    assert!(loc(1, 9).le(&loc(2, 0)));
    assert!(loc(2, 3).le(&loc(2, 3)));
    assert!(!loc(2, 4).le(&loc(2, 3)));
    assert_eq!(loc(2, 4).min(loc(2, 3)), loc(2, 3));
    assert_eq!(loc(2, 4).max(loc(1, 30)), loc(2, 4));
}

#[test]
fn file_extensions() {
    assert_eq!(SourceFileType::Quill.file_extension(), "ql");
    assert_eq!(SourceFileType::Toml.file_extension(), "toml");
    assert_eq!(SourceFileType::Quill.to_string(), "quill");
    assert_eq!(SourceFileType::Toml.to_string(), "toml");
}

#[test]
fn identifier_text_joins_module_and_file() {
    let id = SourceFileIdentifier {
        module: ModuleIdentifier {
            segments: vec![
                SourceFileIdentifierSegment("core".to_string()),
                SourceFileIdentifierSegment("list".to_string()),
            ],
        },
        file: SourceFileIdentifierSegment("fold".to_string()),
        file_type: SourceFileType::Quill,
    };
    assert_eq!(id.to_string(), "core::list::fold");
    let root = SourceFileIdentifier {
        module: ModuleIdentifier { segments: vec![] },
        file: SourceFileIdentifierSegment("quill".to_string()),
        file_type: SourceFileType::Toml,
    };
    assert_eq!(root.to_string(), "quill");
    let copy = id.duplicate();
    assert_eq!(copy.to_string(), "core::list::fold");
    assert_eq!(copy.file_type, SourceFileType::Quill);
}
