use quill::location::{ModuleIdentifier, SourceFileIdentifier, SourceFileIdentifierSegment, SourceFileType};
use quill::source_file::{source_file_for_entry, submodule, PackageFileSystem, SourceFile, SourceFileLoadError};
use std::time::SystemTime;

fn seg(s: &str) -> SourceFileIdentifierSegment {
    SourceFileIdentifierSegment(s.to_string())
}

fn id(module: &[&str], file: &str) -> SourceFileIdentifier {
    SourceFileIdentifier {
        module: ModuleIdentifier { segments: module.iter().map(|s| seg(s)).collect() },
        file: seg(file),
        file_type: SourceFileType::Quill,
    }
}

fn contents(fs: &PackageFileSystem, i: &SourceFileIdentifier) -> Option<String> {
    match fs.cached_source_file(i) {
        Some(Ok(f)) => Some(f.get_contents().to_string()),
        _ => None,
    }
}

#[test]
fn new_file_system_has_nothing_loaded() {
    let fs = PackageFileSystem::new(vec![("core".to_string(), "/tmp/core".to_string())]);
    assert!(fs.cached_source_file(&id(&["core"], "main")).is_none());
    assert_eq!(fs.project_directory(&"core".to_string()), Some(&"/tmp/core".to_string()));
    assert_eq!(fs.project_directory(&"other".to_string()), None);
}

#[test]
fn read_after_overwrite() {
    let mut fs = PackageFileSystem::new(vec![]);
    let a = id(&["core", "list"], "fold");
    fs.overwrite_source_file(a.duplicate(), "fold = 1".to_string());
    assert_eq!(contents(&fs, &a), Some("fold = 1".to_string()));
    fs.overwrite_source_file(a.duplicate(), "fold = 2".to_string());
    assert_eq!(contents(&fs, &a), Some("fold = 2".to_string()));
}

#[test]
fn writes_to_other_files_do_not_interfere() {
    let mut fs = PackageFileSystem::new(vec![]);
    let a = id(&["core", "list"], "fold");
    let b = id(&["core", "list"], "map");
    let c = id(&["core"], "fold");
    fs.overwrite_source_file(a.duplicate(), "A".to_string());
    fs.overwrite_source_file(b.duplicate(), "B".to_string());
    fs.overwrite_source_file(c.duplicate(), "C".to_string());
    assert_eq!(contents(&fs, &a), Some("A".to_string()));
    assert_eq!(contents(&fs, &b), Some("B".to_string()));
    assert_eq!(contents(&fs, &c), Some("C".to_string()));
    fs.remove_cache(&b);
    assert_eq!(contents(&fs, &a), Some("A".to_string()));
    assert!(fs.cached_source_file(&b).is_none());
    assert_eq!(contents(&fs, &c), Some("C".to_string()));
}

#[test]
fn removed_file_is_no_longer_cached() {
    let mut fs = PackageFileSystem::new(vec![]);
    let a = id(&["core"], "main");
    fs.insert_source_file(&a, Ok(SourceFile::new("x".to_string(), SystemTime::now())));
    assert!(fs.cached_source_file(&a).is_some());
    fs.remove_cache(&a);
    assert!(fs.cached_source_file(&a).is_none());
    fs.remove_cache(&a);
    assert!(fs.cached_source_file(&a).is_none());
}

#[test]
fn failed_loads_are_cached_too() {
    let mut fs = PackageFileSystem::new(vec![]);
    let a = id(&["core"], "missing");
    let err = std::io::Error::new(std::io::ErrorKind::NotFound, "gone");
    fs.insert_source_file(&a, Err(SourceFileLoadError::Io(err)));
    assert!(matches!(fs.cached_source_file(&a), Some(Err(SourceFileLoadError::Io(_)))));
}

#[test]
fn source_file_keeps_time() {
    let t = SystemTime::UNIX_EPOCH;
    let f = SourceFile::new("abc".to_string(), t);
    assert_eq!(f.get_contents(), "abc");
    assert_eq!(f.last_modified(), t);
}

#[test]
fn file_path_of_identifier() {
    let fs = PackageFileSystem::new(vec![("core".to_string(), "/tmp/core".to_string())]);
    assert_eq!(fs.file_path(&id(&["core", "list"], "fold")), "/tmp/core/list/fold.ql");
    assert_eq!(fs.file_path(&id(&["core"], "main")), "/tmp/core/main.ql");
    let toml = SourceFileIdentifier {
        module: ModuleIdentifier { segments: vec![seg("core")] },
        file: seg("quill"),
        file_type: SourceFileType::Toml,
    };
    assert_eq!(fs.file_path(&toml), "/tmp/core/quill.toml");
}

#[test]
fn directory_entries() {
    let m = ModuleIdentifier { segments: vec![seg("core")] };
    let f = source_file_for_entry(&m, "main.ql").unwrap();
    assert_eq!(f.to_string(), "core::main");
    assert_eq!(f.file_type, SourceFileType::Quill);
    assert!(source_file_for_entry(&m, "main.rs").is_none());
    assert!(source_file_for_entry(&m, "ql").is_none());
    assert!(source_file_for_entry(&m, "a.ql.bak").is_none());
    assert_eq!(source_file_for_entry(&m, ".ql").unwrap().file.0, "");
    let sub = submodule(&m, "list");
    assert_eq!(sub.segments.len(), 2);
    assert_eq!(sub.segments[1].0, "list");
}

#[test]
fn loading_happens_once() {
    let mut fs = PackageFileSystem::new(vec![]);
    let a = id(&["core"], "main");
    let mut calls = 0;
    fs.ensure_loaded(&a, || {
        calls += 1;
        Ok(SourceFile::new("first".to_string(), SystemTime::now()))
    });
    fs.ensure_loaded(&a, || {
        calls += 1;
        Ok(SourceFile::new("second".to_string(), SystemTime::now()))
    });
    assert_eq!(calls, 1);
    assert_eq!(contents(&fs, &a), Some("first".to_string()));
}

#[test]
fn file_path_pieces() {
    let fs = PackageFileSystem::new(vec![("core".to_string(), "/tmp/core".to_string()), ("app".to_string(), "/srv/app".to_string())]);
    let (dir, parts, ext) = fs.file_path_parts(&id(&["app", "ui", "widgets"], "button"));
    assert_eq!(dir, "/srv/app");
    assert_eq!(parts, vec!["ui".to_string(), "widgets".to_string(), "button".to_string()]);
    assert_eq!(ext, "ql");
}
