use quill::cli::{
    build_targets, default_target, missing_project_folder_message, run_failure_message, source_root_step,
    string_to_target, CliConfig, CompilerLocation, HostType, TargetArchitecture, TargetEnvironment, TargetOS,
    TargetTriple, TargetVendor, ZigCompiler,
};

fn win() -> TargetTriple {
    TargetTriple {
        arch: TargetArchitecture::X86_64,
        vendor: TargetVendor::Pc,
        os: TargetOS::Windows,
        env: Some(TargetEnvironment::Msvc),
    }
}

fn linux() -> TargetTriple {
    TargetTriple {
        arch: TargetArchitecture::X86_64,
        vendor: TargetVendor::Unknown,
        os: TargetOS::Linux,
        env: Some(TargetEnvironment::Gnu),
    }
}

#[test]
fn component_prefixes() {
    assert_eq!(HostType::Linux.component_prefix(), "ubuntu-latest");
    assert_eq!(HostType::Windows.component_prefix(), "windows-latest");
}

#[test]
fn executables() {
    assert_eq!(HostType::Linux.as_executable("/opt/ql/quillc"), "/opt/ql/quillc");
    assert_eq!(HostType::Windows.as_executable("/opt/ql/quillc"), "/opt/ql/quillc.exe");
    assert_eq!(HostType::Windows.as_executable("a/b.sh"), "a/b.exe");
    assert_eq!(HostType::Windows.as_executable("/home/u/.ql"), "/home/u/.ql.exe");
    assert_eq!(HostType::Windows.as_executable("a/b.tar.gz"), "a/b.tar.exe");
    assert_eq!(HostType::Linux.as_executable("build/quillc"), "build/quillc");
    assert_eq!(HostType::from_windows(true), HostType::Windows);
    assert_eq!(HostType::from_windows(false), HostType::Linux);
}

#[test]
fn target_names() {
    assert_eq!(string_to_target("win"), Ok(win()));
    assert_eq!(string_to_target("linux"), Ok(linux()));
    assert_eq!(
        string_to_target("mac"),
        Err("'mac' was not a valid target, expected one of 'win', 'linux'".to_string())
    );
    assert!(string_to_target("Win").is_err());
    assert!(string_to_target("").is_err());
}

#[test]
fn default_targets() {
    assert_eq!(default_target(HostType::Linux), linux());
    assert_eq!(default_target(HostType::Windows), win());
}

#[test]
fn build_target_lists() {
    assert_eq!(build_targets(&None, HostType::Linux), Ok(vec![linux()]));
    assert_eq!(build_targets(&None, HostType::Windows), Ok(vec![win()]));
    let asked = Some(vec!["win".to_string(), "linux".to_string(), "win".to_string()]);
    assert_eq!(build_targets(&asked, HostType::Linux), Ok(vec![win(), linux(), win()]));
    let bad = Some(vec!["linux".to_string(), "bsd".to_string(), "dos".to_string()]);
    assert_eq!(
        build_targets(&bad, HostType::Linux),
        Err("'bsd' was not a valid target, expected one of 'win', 'linux'".to_string())
    );
    assert_eq!(build_targets(&Some(vec![]), HostType::Linux), Ok(vec![]));
}

#[test]
fn quillc_through_cargo() {
    let loc = CompilerLocation::Cargo { source: "/src/quill".to_string() };
    let quiet = loc.quillc_command(false, "{\"a\":1}".to_string());
    assert_eq!(quiet.program, "cargo");
    assert_eq!(quiet.current_dir, Some("/src/quill".to_string()));
    assert_eq!(quiet.args, vec!["run", "--bin", "quillc", "-q", "--", "{\"a\":1}"]);
    let verbose = loc.quillc_command(true, "{}".to_string());
    assert_eq!(verbose.args, vec!["run", "--bin", "quillc", "--", "{}"]);
}

#[test]
fn installed_quillc() {
    let loc = CompilerLocation::installed(HostType::Linux, "/home/u");
    let cmd = loc.quillc_command(true, "{}".to_string());
    assert_eq!(cmd.program, "/home/u/.ql/quillc/quillc");
    assert_eq!(cmd.current_dir, None);
    assert_eq!(cmd.args, vec!["{}"]);
    let win_loc = CompilerLocation::Installed { host: HostType::Windows, root: "/home/u/.ql".to_string() };
    assert_eq!(win_loc.quillc_command(false, "{}".to_string()).program, "/home/u/.ql/quillc/quillc.exe");
}

#[test]
fn zig_compilers() {
    let cargo = CompilerLocation::Cargo { source: ".".to_string() };
    assert!(matches!(cargo.zig_compiler(), ZigCompiler::System));
    let installed = CompilerLocation::Installed { host: HostType::Linux, root: "/r".to_string() };
    match installed.zig_compiler() {
        ZigCompiler::Bundled { host, deps_folder } => {
            assert_eq!(host, HostType::Linux);
            assert_eq!(deps_folder, "/r/compiler-deps");
        },
        ZigCompiler::System => panic!("expected the bundled compiler"),
    }
}

#[test]
fn bundled_zig_executables() {
    assert_eq!(ZigCompiler::bundled_executable(HostType::Linux, "/opt/deps"), "/opt/deps/zig/zig");
    assert_eq!(ZigCompiler::bundled_executable(HostType::Windows, "/opt/deps"), "/opt/deps/zig/zig.exe");
    let windows = CompilerLocation::Installed { host: HostType::Windows, root: "/r".to_string() };
    match windows.zig_compiler() {
        ZigCompiler::Bundled { host, .. } => assert_eq!(host, HostType::Windows),
        ZigCompiler::System => panic!("expected the bundled compiler"),
    }
}

#[test]
fn source_root_search() {
    assert_eq!(source_root_step(".", true, false), Some("./..".to_string()));
    assert_eq!(source_root_step(".", true, true), None);
    assert_eq!(source_root_step("./../..", false, false), None);
}

#[test]
fn run_failures() {
    assert_eq!(run_failure_message(Some(3)), "program terminated with error code 3");
    assert_eq!(run_failure_message(Some(-1)), "program terminated with error code -1");
    assert_eq!(run_failure_message(None), "program terminated with error");
}

#[test]
fn missing_folders() {
    assert_eq!(missing_project_folder_message(Some("proj")), "project folder 'proj' did not exist");
    assert_eq!(missing_project_folder_message(None), "project folder '.' did not exist");
}

#[test]
fn cli_config_holds_its_settings() {
    let c = CliConfig::new(true, CompilerLocation::Cargo { source: "s".to_string() });
    assert!(c.verbose);
    assert!(matches!(c.compiler_location, CompilerLocation::Cargo { .. }));
}
