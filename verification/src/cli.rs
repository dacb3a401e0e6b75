//! The decisions of the `quill` command-line tool: where the compiler is, which
//! command runs it, which targets a build is for, and the messages it fails with.

use vstd::prelude::*;
use vstd::string::StrSliceExecFns;
use vstd::string::StringExecFns;
use crate::source_file::{
    path_join, path_with_extension, join_name, double_slash_start, joined_once, joined, path_laid_out,
    plain_path_inputs, joinable_inputs, plain_name, extension_replaced_at, extension_appends, is_slash, lemma_join_start, lemma_dots_append, lemma_joined_step,
};
use crate::text::{signed_decimal, push_signed_decimal, string_texts};

verus! {

/// Are two texts equal?
pub fn text_equals(a: &str, b: &str) -> (res: bool)
    ensures
        res == (a@ == b@),
{
    let n = a.unicode_len();
    if n != b.unicode_len() {
        return false;
    }
    let mut i: usize = 0;
    while i < n
        invariant
            n == a@.len(),
            n == b@.len(),
            i <= n,
            forall|j: int| 0 <= j < i ==> a@[j] == b@[j],
        decreases n - i,
    {
        if a.get_char(i) != b.get_char(i) {
            return false;
        }
        i = i + 1;
    }
    assert(a@ =~= b@);
    true
}

/// The operating system the tool runs on.
#[derive(Debug, Clone, Copy, PartialEq, Eq, Structural)]
pub enum HostType {
    Linux,
    Windows,
}

/// The name prefix of the released components built for a host.
pub open spec fn spec_component_prefix(h: HostType) -> Seq<char> {
    match h {
        HostType::Linux => "ubuntu-latest"@,
        HostType::Windows => "windows-latest"@,
    }
}

impl HostType {
    /// The host the tool was built for, given whether that is Windows.
    pub fn from_windows(is_windows: bool) -> (res: HostType)
        ensures
            res == (if is_windows { HostType::Windows } else { HostType::Linux }),
    {
        if is_windows { HostType::Windows } else { HostType::Linux }
    }

    /// The path of an executable on this host: unchanged on Linux; on Windows the
    /// extension `exe` is set, which for a path whose last component is a name without
    /// a dot appends `.exe`, and for one whose last component has an extension
    /// replaces it (for other paths, what that gives is not stated: it depends on how
    /// the platform splits paths).
    pub fn as_executable(&self, path: &str) -> (res: String)
        ensures
            *self == HostType::Linux ==> res@ == path@,
            *self == HostType::Windows && extension_appends(path@) ==> res@ == path@ + "."@ + "exe"@,
            *self == HostType::Windows ==> forall|d: int| #[trigger] extension_replaced_at(path@, d)
                ==> res@ == path@.subrange(0, d) + "."@ + "exe"@,
    {
        match self {
            HostType::Linux => String::from_str(path),
            HostType::Windows => {
                let extension = "exe";
                proof {
                    reveal_strlit("exe");
                    reveal_strlit(".");
                    assert(extension@ =~= seq!['e', 'x', 'e']);
                    assert("."@ =~= seq!['.']);
                }
                path_with_extension(path, extension)
            },
        }
    }

    /// The component name prefix assigned to this host: `ubuntu-latest` for Linux,
    /// `windows-latest` for Windows.
    pub fn component_prefix(&self) -> (res: &'static str)
        ensures
            res@ == spec_component_prefix(*self),
    {
        match self {
            HostType::Linux => "ubuntu-latest",
            HostType::Windows => "windows-latest",
        }
    }
}

/// Where the Quill compiler is.
#[derive(Debug)]
pub enum CompilerLocation {
    /// The `quillc` whose sources are in the given folder, run through `cargo`.
    Cargo { source: String },
    /// An installation: the root folder holds `compiler-deps` and a folder for each
    /// component, such as `quillc`; on Windows executables have the extension `exe`.
    Installed { host: HostType, root: String },
}

/// The Zig compiler that goes with a Quill compiler.
#[derive(Debug)]
pub enum ZigCompiler {
    /// The `zig` found on the system's search path.
    System,
    /// The executable `zig/zig` inside the folder `deps_folder`, once that folder's
    /// path is made canonical; on a Windows host it has the extension `exe`, as every
    /// executable of an installation has.
    Bundled { host: HostType, deps_folder: String },
}

impl ZigCompiler {
    /// The bundled Zig executable, given the canonical path of the folder that holds
    /// it: `zig/zig` below that folder, in the form the host runs.
    pub fn bundled_executable(host: HostType, deps_folder: &str) -> (res: String)
        ensures
            host == HostType::Linux && joinable_inputs(deps_folder@, seq!["zig"@, "zig"@])
                ==> joined(deps_folder@, seq!["zig"@, "zig"@], res@),
            host == HostType::Windows && plain_path_inputs(deps_folder@, seq!["zig"@, "zig"@])
                ==> path_laid_out(deps_folder@, seq!["zig"@, "zig"@], "exe"@, res@),
    {
        let name = "zig";
        proof {
            reveal_strlit("zig");
        }
        executable_in(host, deps_folder, name)
    }
}

/// A program to run, the folder to run it in (if not the current one), and its arguments.
#[derive(Debug)]
pub struct CommandPlan {
    pub program: String,
    pub current_dir: Option<String>,
    pub args: Vec<String>,
}

/// The arguments that run `quillc` through `cargo`.
pub open spec fn cargo_quillc_args(verbose: bool, json: Seq<char>) -> Seq<Seq<char>> {
    seq!["run"@, "--bin"@, "quillc"@] + (if verbose { Seq::empty() } else { seq!["-q"@] }) + seq!["--"@, json]
}

impl CompilerLocation {
    /// An installation under the folder `.ql` of the user's home folder.
    pub fn installed(host: HostType, home: &str) -> (res: CompilerLocation)
        ensures
            res matches CompilerLocation::Installed { host: h, root }
                && h == host
                && (!double_slash_start(home@) ==> joined_once(home@, ".ql"@, root@)),
    {
        let name = ".ql";
        proof {
            reveal_strlit(".ql");
            assert(join_name(name@));
        }
        CompilerLocation::Installed { host, root: path_join(home, name) }
    }

    /// The command that runs `quillc` on the invocation written as JSON: through
    /// `cargo run` in the source folder (quietly unless `verbose`), or the installed
    /// executable `quillc/quillc` under the root folder.
    pub fn quillc_command(&self, verbose: bool, invocation_json: String) -> (res: CommandPlan)
        ensures
            match *self {
                CompilerLocation::Cargo { source } => {
                    &&& res.program@ == "cargo"@
                    &&& res.current_dir matches Some(d) && d@ == source@
                    &&& string_texts(res.args@) == cargo_quillc_args(verbose, invocation_json@)
                },
                CompilerLocation::Installed { host, root } => {
                    &&& res.current_dir is None
                    &&& string_texts(res.args@) == seq![invocation_json@]
                    &&& host == HostType::Linux && joinable_inputs(root@, seq!["quillc"@, "quillc"@])
                        ==> joined(root@, seq!["quillc"@, "quillc"@], res.program@)
                    &&& host == HostType::Windows && plain_path_inputs(root@, seq!["quillc"@, "quillc"@])
                        ==> path_laid_out(root@, seq!["quillc"@, "quillc"@], "exe"@, res.program@)
                },
            },
    {
        match self {
            CompilerLocation::Cargo { source } => {
                let mut args: Vec<String> = Vec::new();
                args.push(String::from_str("run"));
                args.push(String::from_str("--bin"));
                args.push(String::from_str("quillc"));
                if !verbose {
                    args.push(String::from_str("-q"));
                }
                args.push(String::from_str("--"));
                args.push(invocation_json);
                let res = CommandPlan {
                    program: String::from_str("cargo"),
                    current_dir: Some(source.clone()),
                    args,
                };
                assert(string_texts(res.args@) =~= cargo_quillc_args(verbose, invocation_json@));
                res
            },
            CompilerLocation::Installed { host, root } => {
                let name = "quillc";
                proof {
                    reveal_strlit("quillc");
                }
                let program = executable_in(*host, root.as_str(), name);
                let mut args: Vec<String> = Vec::new();
                args.push(invocation_json);
                let res = CommandPlan { program, current_dir: None, args };
                assert(string_texts(res.args@) =~= seq![invocation_json@]);
                res
            },
        }
    }

    /// Where the Zig compiler that goes with this Quill compiler is: the system's for
    /// a compiler run through `cargo`, else the one in `compiler-deps` under the root.
    pub fn zig_compiler(&self) -> (res: ZigCompiler)
        ensures
            (*self is Cargo) <==> (res is System),
            match (*self, res) {
                (CompilerLocation::Installed { host, root }, ZigCompiler::Bundled { host: h, deps_folder }) =>
                    h == host && (!double_slash_start(root@) ==> joined_once(root@, "compiler-deps"@, deps_folder@)),
                _ => true,
            },
    {
        match self {
            CompilerLocation::Cargo { .. } => ZigCompiler::System,
            CompilerLocation::Installed { host, root } => {
                let name = "compiler-deps";
                proof {
                    reveal_strlit("compiler-deps");
                    assert(join_name(name@));
                }
                ZigCompiler::Bundled { host: *host, deps_folder: path_join(root.as_str(), name) }
            },
        }
    }
}

/// The executable `name/name` below the folder `root`, in the form the host runs: as
/// it is on Linux, with the extension `exe` on Windows. The layout on Linux needs no
/// more than joinable inputs; on Windows the folder's dots must also stay out of the
/// extension that is set.
fn executable_in(host: HostType, root: &str, name: &str) -> (res: String)
    requires
        plain_name(name@),
    ensures
        host == HostType::Linux && joinable_inputs(root@, seq![name@, name@]) ==> joined(root@, seq![name@, name@], res@),
        host == HostType::Windows && plain_path_inputs(root@, seq![name@, name@])
            ==> path_laid_out(root@, seq![name@, name@], "exe"@, res@),
{
    let folder = path_join(root, name);
    let exe = path_join(folder.as_str(), name);
    let ghost q = name@;
    let ghost parts = seq![q, q];
    proof {
        if joinable_inputs(root@, parts) {
            assert(parts[0] == q);
            assert(joined(root@, Seq::<Seq<char>>::empty(), root@));
            lemma_joined_step(root@, Seq::empty(), root@, q, folder@);
            assert(Seq::<Seq<char>>::empty().push(q) =~= seq![q]);
            lemma_join_start(root@, q, folder@);
            lemma_joined_step(root@, seq![q], folder@, q, exe@);
            assert(seq![q].push(q) =~= parts);
            lemma_join_start(folder@, q, exe@);
        }
        if plain_path_inputs(root@, parts) {
            if folder@ == root@ + q {
                lemma_dots_append(root@, q);
            } else {
                let t = seq![folder@[root@.len() as int]] + q;
                assert(folder@ =~= root@ + t);
                lemma_dots_append(root@, t);
            }
            if exe@ == folder@ + q {
                lemma_dots_append(folder@, q);
            } else {
                let t = seq![exe@[folder@.len() as int]] + q;
                assert(exe@ =~= folder@ + t);
                lemma_dots_append(folder@, t);
            }
            assert(exe@.last() == q.last());
            assert(q.last() == q[q.len() - 1]);
            assert(extension_appends(exe@));
        }
    }
    let program = host.as_executable(exe.as_str());
    proof {
        if plain_path_inputs(root@, parts) && host == HostType::Windows {
            reveal_strlit("exe");
            reveal_strlit(".");
            let e = "exe"@;
            let p = program@;
            assert(p == exe@ + "."@ + e);
            assert(p.subrange(p.len() - e.len() - 1, p.len() as int) =~= seq!['.'] + e);
            assert(p.subrange(0, p.len() - e.len() - 1) =~= exe@);
        }
    }
    program
}

/// The settings of one run of the tool.
#[derive(Debug)]
pub struct CliConfig {
    pub verbose: bool,
    pub compiler_location: CompilerLocation,
}

impl CliConfig {
    pub fn new(verbose: bool, compiler_location: CompilerLocation) -> (res: CliConfig)
        ensures
            res.verbose == verbose,
            res.compiler_location == compiler_location,
    {
        CliConfig { verbose, compiler_location }
    }
}

/// One step of the search for the root of the Quill sources, which starts at the
/// current folder: a folder that exists and holds no `Cargo.lock` hands the search
/// on to its parent (`..` below it); any other ends the search there.
pub fn source_root_step(folder: &str, is_dir: bool, has_cargo_lock: bool) -> (res: Option<String>)
    ensures
        res is Some <==> (is_dir && !has_cargo_lock),
        res matches Some(p) ==> (!double_slash_start(folder@) ==> joined_once(folder@, ".."@, p@)),
{
    if is_dir && !has_cargo_lock {
        let name = "..";
        proof {
            reveal_strlit("..");
            assert(join_name(name@));
        }
        Some(path_join(folder, name))
    } else {
        None
    }
}

/// The architecture of a target.
#[derive(Debug, Clone, Copy, PartialEq, Eq, Structural)]
pub enum TargetArchitecture {
    X86_64,
}

/// The vendor of a target.
#[derive(Debug, Clone, Copy, PartialEq, Eq, Structural)]
pub enum TargetVendor {
    Pc,
    Unknown,
}

/// The operating system of a target.
#[derive(Debug, Clone, Copy, PartialEq, Eq, Structural)]
pub enum TargetOS {
    Windows,
    Linux,
}

/// The environment (ABI) of a target.
#[derive(Debug, Clone, Copy, PartialEq, Eq, Structural)]
pub enum TargetEnvironment {
    Msvc,
    Gnu,
}

/// What a build produces code for.
#[derive(Debug, Clone, Copy, PartialEq, Eq, Structural)]
pub struct TargetTriple {
    pub arch: TargetArchitecture,
    pub vendor: TargetVendor,
    pub os: TargetOS,
    pub env: Option<TargetEnvironment>,
}

/// 64-bit Windows with the MSVC environment.
pub open spec fn windows_target() -> TargetTriple {
    TargetTriple {
        arch: TargetArchitecture::X86_64,
        vendor: TargetVendor::Pc,
        os: TargetOS::Windows,
        env: Some(TargetEnvironment::Msvc),
    }
}

/// 64-bit Linux with the GNU environment.
pub open spec fn linux_target() -> TargetTriple {
    TargetTriple {
        arch: TargetArchitecture::X86_64,
        vendor: TargetVendor::Unknown,
        os: TargetOS::Linux,
        env: Some(TargetEnvironment::Gnu),
    }
}

/// The message for a target name that is not known.
pub open spec fn invalid_target_text(name: Seq<char>) -> Seq<char> {
    "'"@ + name + "' was not a valid target, expected one of 'win', 'linux'"@
}

/// The target named `target`: `win` or `linux`.
pub fn string_to_target(target: &str) -> (res: Result<TargetTriple, String>)
    ensures
        target@ == "win"@ ==> res == Ok::<TargetTriple, String>(windows_target()),
        target@ == "linux"@ ==> res == Ok::<TargetTriple, String>(linux_target()),
        target@ != "win"@ && target@ != "linux"@ ==> (res matches Err(m) && m@ == invalid_target_text(target@)),
{
    proof {
        reveal_strlit("win");
        reveal_strlit("linux");
        assert("win"@.len() == 3);
        assert("linux"@.len() == 5);
    }
    if text_equals(target, "win") {
        Ok(TargetTriple {
            arch: TargetArchitecture::X86_64,
            vendor: TargetVendor::Pc,
            os: TargetOS::Windows,
            env: Some(TargetEnvironment::Msvc),
        })
    } else if text_equals(target, "linux") {
        Ok(TargetTriple {
            arch: TargetArchitecture::X86_64,
            vendor: TargetVendor::Unknown,
            os: TargetOS::Linux,
            env: Some(TargetEnvironment::Gnu),
        })
    } else {
        let mut m = String::from_str("'");
        m.append(target);
        m.append("' was not a valid target, expected one of 'win', 'linux'");
        Err(m)
    }
}

/// The target a build is for when none is asked for: the host's own.
pub open spec fn spec_default_target(host: HostType) -> TargetTriple {
    match host {
        HostType::Windows => windows_target(),
        HostType::Linux => linux_target(),
    }
}

/// The target a build is for when none is asked for: the host's own.
pub fn default_target(host: HostType) -> (res: TargetTriple)
    ensures
        res == spec_default_target(host),
{
    match host {
        HostType::Windows => TargetTriple {
            arch: TargetArchitecture::X86_64,
            vendor: TargetVendor::Pc,
            os: TargetOS::Windows,
            env: Some(TargetEnvironment::Msvc),
        },
        HostType::Linux => TargetTriple {
            arch: TargetArchitecture::X86_64,
            vendor: TargetVendor::Unknown,
            os: TargetOS::Linux,
            env: Some(TargetEnvironment::Gnu),
        },
    }
}

/// Is `name` the name of a known target?
pub open spec fn is_target_name(name: Seq<char>) -> bool {
    name == "win"@ || name == "linux"@
}

/// The target a known name stands for.
pub open spec fn named_target(name: Seq<char>) -> TargetTriple {
    if name == "win"@ { windows_target() } else { linux_target() }
}

/// The name at `i` is the first that is not a target's.
pub open spec fn first_invalid(names: Seq<String>, i: int) -> bool {
    &&& 0 <= i < names.len()
    &&& !is_target_name(names[i]@)
    &&& forall|j: int| 0 <= j < i ==> is_target_name((#[trigger] names[j])@)
}

/// The targets of a build: those asked for, in order, or the host's own when none
/// were asked for. The first name that is not a target's fails the build with its
/// message.
pub fn build_targets(requested: &Option<Vec<String>>, host: HostType) -> (res: Result<Vec<TargetTriple>, String>)
    ensures
        requested is None ==> (res matches Ok(v) && v@ == seq![spec_default_target(host)]),
        match *requested {
            Some(names) => match res {
                Ok(v) => {
                    &&& forall|i: int| 0 <= i < names@.len() ==> is_target_name((#[trigger] names@[i])@)
                    &&& v@ == names@.map_values(|n: String| named_target(n@))
                },
                Err(m) => exists|i: int| #[trigger] first_invalid(names@, i) && m@ == invalid_target_text(names@[i]@),
            },
            None => true,
        },
{
    match requested {
        None => {
            let mut v: Vec<TargetTriple> = Vec::new();
            v.push(default_target(host));
            assert(v@ =~= seq![spec_default_target(host)]);
            Ok(v)
        },
        Some(names) => {
            let mut v: Vec<TargetTriple> = Vec::new();
            let mut i: usize = 0;
            while i < names.len()
                invariant
                    i <= names@.len(),
                    *requested == Some(*names),
                    forall|j: int| 0 <= j < i ==> is_target_name((#[trigger] names@[j])@),
                    v@ == names@.take(i as int).map_values(|n: String| named_target(n@)),
                decreases names@.len() - i,
            {
                match string_to_target(names[i].as_str()) {
                    Ok(t) => {
                        v.push(t);
                        assert(names@.take(i + 1) =~= names@.take(i as int).push(names@[i as int]));
                        assert(v@ =~= names@.take(i + 1).map_values(|n: String| named_target(n@)));
                    },
                    Err(m) => {
                        proof {
                            reveal_strlit("win");
                            reveal_strlit("linux");
                        }
                        assert(!is_target_name(names@[i as int]@));
                        assert(m@ == invalid_target_text(names@[i as int]@));
                        assert(forall|j: int| 0 <= j < i ==> is_target_name((#[trigger] names@[j])@));
                        assert(requested.unwrap()@ == names@);
                        assert(first_invalid(requested.unwrap()@, i as int));
                        return Err(m);
                    },
                }
                i = i + 1;
            }
            assert(names@.take(names@.len() as int) =~= names@);
            Ok(v)
        },
    }
}

/// The message when the built program fails: with its exit code if it has one.
pub open spec fn run_failure_text(code: Option<i32>) -> Seq<char> {
    match code {
        Some(c) => "program terminated with error code "@ + signed_decimal(c as int),
        None => "program terminated with error"@,
    }
}

/// The message when the built program fails: with its exit code if it has one.
pub fn run_failure_message(code: Option<i32>) -> (res: String)
    ensures
        res@ == run_failure_text(code),
{
    match code {
        Some(c) => {
            let mut m = String::from_str("program terminated with error code ");
            push_signed_decimal(&mut m, c as i64);
            m
        },
        None => String::from_str("program terminated with error"),
    }
}

/// The message when the project folder does not exist; the folder named is the one
/// asked for, or `.`.
pub open spec fn missing_folder_text(provided: Option<Seq<char>>) -> Seq<char> {
    "project folder '"@ + (match provided { Some(p) => p, None => "."@ }) + "' did not exist"@
}

/// The message when the project folder does not exist.
pub fn missing_project_folder_message(provided: Option<&str>) -> (res: String)
    ensures
        res@ == missing_folder_text(match provided { Some(p) => Some(p@), None => None }),
{
    let mut m = String::from_str("project folder '");
    match provided {
        Some(p) => m.append(p),
        None => m.append("."),
    }
    m.append("' did not exist");
    m
}

} // verus!
