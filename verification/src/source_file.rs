//! The in-memory store of a package's source files, and the layout of the lines of
//! source code that a diagnostic message shows.

use vstd::prelude::*;
use vstd::string::StrSliceExecFns;
use vstd::string::StringExecFns;
use crate::text::string_texts;
use crate::location::{Range, SourceFileIdentifier, SourceFileIdentifierSegment, ModuleIdentifier, SourceFileType, module_segments, segment_names, spec_file_extension};

verus! {

#[verifier::external_type_specification]
#[verifier::external_body]
pub struct ExIoError(std::io::Error);

#[verifier::external_type_specification]
#[verifier::external_body]
pub struct ExSystemTime(std::time::SystemTime);

/// The current time of the system clock.
#[verifier::external_body]
fn system_time_now() -> std::time::SystemTime {
    std::time::SystemTime::now()
}

/// If a source file's contents could not be loaded, why was this?
#[derive(Debug)]
pub enum SourceFileLoadError {
    Io(std::io::Error),
}

/// A single file of source code, with the time it was last modified.
#[derive(Debug)]
pub struct SourceFile {
    contents: String,
    modified_time: std::time::SystemTime,
}

impl View for SourceFile {
    type V = Seq<char>;

    /// The text of the file.
    closed spec fn view(&self) -> Seq<char> {
        self.contents@
    }
}

impl SourceFile {
    /// A file with the given text, modified at the given time.
    pub fn new(contents: String, modified_time: std::time::SystemTime) -> (res: SourceFile)
        ensures
            res@ == contents@,
            res.modified() == modified_time,
    {
        SourceFile { contents, modified_time }
    }

    /// When the file was last modified.
    pub closed spec fn modified(&self) -> std::time::SystemTime {
        self.modified_time
    }

    /// The text of the file.
    pub fn get_contents(&self) -> (res: &str)
        ensures
            res@ == self@,
    {
        self.contents.as_str()
    }

    /// When the file was last modified.
    pub fn last_modified(&self) -> (res: std::time::SystemTime)
        ensures
            res == self.modified(),
    {
        self.modified_time
    }
}

/// A tree of source files and other modules, each under its name; the first entry
/// of a name is the one that counts.
#[derive(Debug)]
pub struct Module {
    pub submodules: Vec<(String, Module)>,
    pub source_files: Vec<(String, Result<SourceFile, SourceFileLoadError>)>,
}

/// The index of the first entry named `name`, or -1.
pub open spec fn find_entry<V>(entries: Seq<(String, V)>, name: Seq<char>) -> int
    decreases entries.len(),
{
    if entries.len() == 0 {
        -1
    } else {
        let r = find_entry(entries.drop_last(), name);
        if r >= 0 {
            r
        } else if entries.last().0@ == name {
            entries.len() - 1
        } else {
            -1
        }
    }
}

/// The submodule of `m` named `name`.
pub open spec fn sub_module(m: Module, name: Seq<char>) -> Option<Module> {
    let i = find_entry(m.submodules@, name);
    if i >= 0 {
        Some(m.submodules@[i].1)
    } else {
        None
    }
}

/// The module found by following `path` down from `m`.
pub open spec fn module_at(m: Module, path: Seq<Seq<char>>) -> Option<Module>
    decreases path.len(),
{
    if path.len() == 0 {
        Some(m)
    } else {
        match sub_module(m, path[0]) {
            Some(c) => module_at(c, path.drop_first()),
            None => None,
        }
    }
}

/// The entry of the source file `name` of `m`.
pub open spec fn file_in(m: Module, name: Seq<char>) -> Option<Result<SourceFile, SourceFileLoadError>> {
    let i = find_entry(m.source_files@, name);
    if i >= 0 {
        Some(m.source_files@[i].1)
    } else {
        None
    }
}

/// The entry of the source file `name` in the module at `path` below `m`.
pub open spec fn file_at(m: Module, path: Seq<Seq<char>>, name: Seq<char>) -> Option<
    Result<SourceFile, SourceFileLoadError>,
> {
    match module_at(m, path) {
        Some(c) => file_in(c, name),
        None => None,
    }
}

proof fn lemma_find_entry_bounds<V>(entries: Seq<(String, V)>, name: Seq<char>)
    ensures
        -1 <= find_entry(entries, name) < entries.len(),
        find_entry(entries, name) >= 0 ==> entries[find_entry(entries, name)].0@ == name,
        find_entry(entries, name) >= 0 ==> forall|j: int| 0 <= j < find_entry(entries, name) ==> (#[trigger] entries[j]).0@ != name,
        find_entry(entries, name) == -1 ==> forall|j: int| 0 <= j < entries.len() ==> (#[trigger] entries[j]).0@ != name,
    decreases entries.len(),
{
    if entries.len() > 0 {
        lemma_find_entry_bounds(entries.drop_last(), name);
        if find_entry(entries, name) >= 0 {
            assert forall|j: int| 0 <= j < find_entry(entries, name) implies (#[trigger] entries[j]).0@ != name by {
                assert(entries.drop_last()[j] == entries[j]);
            }
        }
        if find_entry(entries, name) == -1 {
            assert forall|j: int| 0 <= j < entries.len() implies (#[trigger] entries[j]).0@ != name by {
                if j < entries.len() - 1 {
                    assert(entries.drop_last()[j] == entries[j]);
                }
            }
        }
    }
}

/// Changing the value of entry `i` leaves where each name is found unchanged.
proof fn lemma_find_entry_update<V>(entries: Seq<(String, V)>, i: int, e: (String, V), name: Seq<char>)
    requires
        0 <= i < entries.len(),
        e.0@ == entries[i].0@,
    ensures
        find_entry(entries.update(i, e), name) == find_entry(entries, name),
    decreases entries.len(),
{
    if i < entries.len() - 1 {
        lemma_find_entry_update(entries.drop_last(), i, e, name);
        assert(entries.update(i, e).drop_last() =~= entries.drop_last().update(i, e));
    } else {
        assert(entries.update(i, e).drop_last() =~= entries.drop_last());
    }
}

/// Adding an entry at the end leaves where each present name is found unchanged.
proof fn lemma_find_entry_push<V>(entries: Seq<(String, V)>, e: (String, V), name: Seq<char>)
    ensures
        find_entry(entries, name) >= 0 ==> find_entry(entries.push(e), name) == find_entry(entries, name),
        find_entry(entries, name) < 0 ==> find_entry(entries.push(e), name) == (if e.0@ == name { entries.len() as int } else { -1 }),
{
    assert(entries.push(e).drop_last() =~= entries);
}

/// Removing entry `i` of a name other than `name` keeps `name`'s entry.
proof fn lemma_find_entry_remove<V>(entries: Seq<(String, V)>, i: int, name: Seq<char>)
    requires
        0 <= i < entries.len(),
        entries[i].0@ != name,
    ensures
        find_entry(entries.remove(i), name) >= 0 <==> find_entry(entries, name) >= 0,
        find_entry(entries, name) >= 0 ==> entries.remove(i)[find_entry(entries.remove(i), name)] == entries[find_entry(entries, name)],
    decreases entries.len(),
{
    if i < entries.len() - 1 {
        lemma_find_entry_remove(entries.drop_last(), i, name);
        assert(entries.remove(i).drop_last() =~= entries.drop_last().remove(i));
        lemma_find_entry_bounds(entries.drop_last(), name);
        lemma_find_entry_bounds(entries.drop_last().remove(i), name);
        if find_entry(entries.drop_last(), name) >= 0 {
            let k = find_entry(entries.drop_last().remove(i), name);
            assert(entries.remove(i)[k] == entries.drop_last().remove(i)[k]);
        }
    } else {
        assert(entries.remove(i) =~= entries.drop_last());
        lemma_find_entry_bounds(entries.drop_last(), name);
    }
}

/// Everything below `m2` is as below `m1`, except possibly the file `name` of the
/// module at `path`, which in `m2` is `v`.
pub open spec fn set_file_spec(
    m1: Module,
    m2: Module,
    path: Seq<Seq<char>>,
    name: Seq<char>,
    v: Option<Result<SourceFile, SourceFileLoadError>>,
) -> bool {
    &&& file_at(m2, path, name) == v
    &&& forall|p: Seq<Seq<char>>, n: Seq<char>| !(p == path && n == name) ==> #[trigger] file_at(m2, p, n)
        == file_at(m1, p, n)
}

impl Module {
    /// An empty module.
    pub fn new() -> (res: Module)
        ensures
            res.submodules@.len() == 0,
            res.source_files@.len() == 0,
    {
        Module { submodules: Vec::new(), source_files: Vec::new() }
    }

    /// Sets, or with `None` removes, the file `name` of this module.
    fn set_own_file(&mut self, name: String, v: Option<Result<SourceFile, SourceFileLoadError>>)
        ensures
            final(self).submodules == old(self).submodules,
            file_in(*final(self), name@) == v,
            forall|n: Seq<char>| n != name@ ==> #[trigger] file_in(*final(self), n) == file_in(*old(self), n),
    {
        let ghost v0 = v;
        let mut i: usize = 0;
        let mut found: Option<usize> = None;
        while i < self.source_files.len()
            invariant
                i <= self.source_files@.len(),
                match found {
                    Some(f) => f < i && self.source_files@[f as int].0@ == name@
                        && forall|j: int| 0 <= j < f ==> (#[trigger] self.source_files@[j]).0@ != name@,
                    None => forall|j: int| 0 <= j < i ==> (#[trigger] self.source_files@[j]).0@ != name@,
                },
            decreases self.source_files@.len() - i,
        {
            if found.is_none() && self.source_files[i].0 == name {
                found = Some(i);
            }
            i = i + 1;
        }
        proof {
            lemma_find_entry_bounds(self.source_files@, name@);
        }
        match v {
            Some(file) => {
                match found {
                    Some(f) => {
                        let ghost before = self.source_files@;
                        proof {
                            lemma_find_entry_bounds(before, name@);
                            assert(find_entry(before, name@) == f) by {
                                if find_entry(before, name@) == -1 {
                                    assert(before[f as int].0@ == name@);
                                } else if find_entry(before, name@) < f {
                                    assert(before[find_entry(before, name@)].0@ == name@);
                                } else if find_entry(before, name@) > f {
                                    assert(before[f as int].0@ == name@);
                                }
                            }
                        }
                        let (n, _old) = self.source_files.remove(f);
                        self.source_files.insert(f, (n, file));
                        proof {
                            assert(self.source_files@ =~= before.update(f as int, (n, v0->0)));
                            assert forall|m: Seq<char>| true implies #[trigger] file_in(*self, m) == (if m == name@ { v0 } else { file_in(*old(self), m) }) by {
                                lemma_find_entry_update(before, f as int, (n, v0->0), m);
                                lemma_find_entry_bounds(before, m);
                            }
                        }
                    },
                    None => {
                        let ghost before = self.source_files@;
                        self.source_files.push((name, file));
                        proof {
                            assert forall|m: Seq<char>| true implies #[trigger] file_in(*self, m) == (if m == name@ { v0 } else { file_in(*old(self), m) }) by {
                                lemma_find_entry_push(before, (name, v0->0), m);
                                lemma_find_entry_bounds(before, m);
                            }
                        }
                    },
                }
            },
            None => {
                let mut j: usize = self.source_files.len();
                let ghost before = self.source_files@;
                while j > 0
                    invariant
                        j <= self.source_files@.len(),
                        self.submodules == old(self).submodules,
                        forall|k: int| j <= k < self.source_files@.len() ==> (#[trigger] self.source_files@[k]).0@ != name@,
                        forall|m: Seq<char>| m != name@ ==> (find_entry(self.source_files@, m) >= 0 <==> find_entry(before, m) >= 0),
                        forall|m: Seq<char>| m != name@ && find_entry(before, m) >= 0 ==> self.source_files@[find_entry(self.source_files@, m)] == before[find_entry(before, m)],
                    decreases j,
                {
                    j = j - 1;
                    if self.source_files[j].0 == name {
                        let ghost cur = self.source_files@;
                        self.source_files.remove(j);
                        proof {
                            assert forall|m: Seq<char>| m != name@ implies (find_entry(self.source_files@, m) >= 0 <==> find_entry(before, m) >= 0) by {
                                lemma_find_entry_remove(cur, j as int, m);
                            }
                            assert forall|m: Seq<char>| m != name@ && find_entry(before, m) >= 0 implies self.source_files@[find_entry(self.source_files@, m)] == before[find_entry(before, m)] by {
                                lemma_find_entry_remove(cur, j as int, m);
                            }
                            assert forall|k: int| j <= k < self.source_files@.len() implies (#[trigger] self.source_files@[k]).0@ != name@ by {
                                assert(self.source_files@[k] == cur[k + 1]);
                            }
                        }
                    }
                }
                proof {
                    lemma_find_entry_bounds(self.source_files@, name@);
                    assert forall|n: Seq<char>| n != name@ implies #[trigger] file_in(*self, n) == file_in(*old(self), n) by {
                        lemma_find_entry_bounds(self.source_files@, n);
                        lemma_find_entry_bounds(before, n);
                    }
                }
            },
        }
    }
}


proof fn lemma_empty_module_files(m: Module, p: Seq<Seq<char>>, n: Seq<char>)
    requires
        m.submodules@.len() == 0,
        m.source_files@.len() == 0,
    ensures
        file_at(m, p, n) is None,
{
    if p.len() > 0 {
        assert(sub_module(m, p[0]) is None);
    }
}

proof fn lemma_own_files(m: Module, m2: Module, path: Seq<Seq<char>>, name: Seq<char>, v: Option<Result<SourceFile, SourceFileLoadError>>)
    requires
        path.len() == 0,
        m2.submodules == m.submodules,
        file_in(m2, name) == v,
        forall|n: Seq<char>| n != name ==> #[trigger] file_in(m2, n) == file_in(m, n),
    ensures
        set_file_spec(m, m2, path, name, v),
{
    assert forall|p: Seq<Seq<char>>, n: Seq<char>| !(p == path && n == name) implies #[trigger] file_at(m2, p, n) == file_at(m, p, n) by {
        if p.len() > 0 {
            assert(sub_module(m2, p[0]) == sub_module(m, p[0]));
        } else {
            assert(p =~= path);
        }
    }
}

/// Replacing the child found under `seg` by `child2` sets a file below it.
proof fn lemma_child_files(
    m: Module,
    m2: Module,
    seg: Seq<char>,
    child2: Module,
    rest: Seq<Seq<char>>,
    name: Seq<char>,
    v: Option<Result<SourceFile, SourceFileLoadError>>,
)
    requires
        m2.source_files == m.source_files,
        sub_module(m2, seg) == Some(child2),
        forall|s: Seq<char>| s != seg ==> #[trigger] sub_module(m2, s) == sub_module(m, s),
        match sub_module(m, seg) {
            Some(c) => set_file_spec(c, child2, rest, name, v),
            None => file_at(child2, rest, name) == v && forall|q: Seq<Seq<char>>, n: Seq<char>|
                !(q == rest && n == name) ==> #[trigger] file_at(child2, q, n) is None,
        },
    ensures
        set_file_spec(m, m2, seq![seg] + rest, name, v),
{
    let path = seq![seg] + rest;
    assert(path[0] == seg);
    assert(path.drop_first() =~= rest);
    assert forall|p: Seq<Seq<char>>, n: Seq<char>| !(p == path && n == name) implies #[trigger] file_at(m2, p, n) == file_at(m, p, n) by {
        if p.len() > 0 {
            if p[0] == seg {
                if p.drop_first() == rest && n == name {
                    assert(p =~= path);
                }
                match sub_module(m, seg) {
                    Some(c) => {
                        assert(file_at(child2, p.drop_first(), n) == file_at(c, p.drop_first(), n));
                    },
                    None => {
                        assert(file_at(child2, p.drop_first(), n) is None);
                    },
                }
            } else {
                assert(sub_module(m2, p[0]) == sub_module(m, p[0]));
            }
        }
    }
}

impl Module {
    /// The index of the first submodule named `name`, if any.
    fn find_submodule(&self, name: &String) -> (res: Option<usize>)
        ensures
            match res {
                Some(i) => i as int == find_entry(self.submodules@, name@),
                None => find_entry(self.submodules@, name@) == -1,
            },
    {
        let mut i: usize = 0;
        while i < self.submodules.len()
            invariant
                i <= self.submodules@.len(),
                forall|j: int| 0 <= j < i ==> (#[trigger] self.submodules@[j]).0@ != name@,
            decreases self.submodules@.len() - i,
        {
            if self.submodules[i].0 == *name {
                proof {
                    lemma_find_entry_bounds(self.submodules@, name@);
                    if find_entry(self.submodules@, name@) == -1 {
                        assert(self.submodules@[i as int].0@ == name@);
                    } else if find_entry(self.submodules@, name@) > i {
                        assert(self.submodules@[i as int].0@ == name@);
                    }
                }
                return Some(i);
            }
            i = i + 1;
        }
        proof {
            lemma_find_entry_bounds(self.submodules@, name@);
            if find_entry(self.submodules@, name@) >= 0 {
                assert(self.submodules@[find_entry(self.submodules@, name@)].0@ == name@);
            }
        }
        None
    }

    /// Sets, or with `None` removes, the file `name` of the module at `path[start..]`
    /// below this one, creating the modules on the way that do not exist yet.
    fn set_file(
        &mut self,
        path: &Vec<SourceFileIdentifierSegment>,
        start: usize,
        name: String,
        v: Option<Result<SourceFile, SourceFileLoadError>>,
    )
        requires
            start <= path@.len(),
        ensures
            set_file_spec(*old(self), *final(self), segment_names(path@.skip(start as int)), name@, v),
        decreases path@.len() - start,
    {
        let ghost m = *self;
        let ghost rest = segment_names(path@.skip(start + 1));
        let ghost target = segment_names(path@.skip(start as int));
        if start == path.len() {
            let ghost nm = name@;
            let ghost vv = v;
            self.set_own_file(name, v);
            proof {
                assert(target =~= Seq::<Seq<char>>::empty());
                lemma_own_files(m, *self, target, nm, vv);
            }
        } else {
            let ghost nm = name@;
            let ghost vv = v;
            let seg = &path[start].0;
            proof {
                assert(target =~= seq![seg@] + rest);
            }
            match self.find_submodule(seg) {
                Some(i) => {
                    proof {
                        lemma_find_entry_bounds(self.submodules@, seg@);
                    }
                    let (k, mut child) = self.submodules.remove(i);
                    let ghost c = child;
                    child.set_file(path, start + 1, name, v);
                    let ghost c2 = child;
                    let ghost subs = m.submodules@;
                    self.submodules.insert(i, (k, child));
                    proof {
                        assert(self.submodules@ =~= subs.update(i as int, (k, c2)));
                        assert(sub_module(m, seg@) == Some(c));
                        lemma_find_entry_update(subs, i as int, (k, c2), seg@);
                        assert forall|s: Seq<char>| s != seg@ implies #[trigger] sub_module(*self, s) == sub_module(m, s) by {
                            lemma_find_entry_update(subs, i as int, (k, c2), s);
                            lemma_find_entry_bounds(subs, s);
                        }
                        lemma_child_files(m, *self, seg@, c2, rest, nm, vv);
                    }
                },
                None => {
                    let mut child = Module::new();
                    let ghost c = child;
                    child.set_file(path, start + 1, name, v);
                    let ghost c2 = child;
                    let ghost subs = m.submodules@;
                    let key = seg.clone();
                    let ghost entry = (key, c2);
                    self.submodules.push((key, child));
                    proof {
                        lemma_find_entry_push(subs, entry, seg@);
                        assert(self.submodules@ == subs.push(entry));
                        assert forall|s: Seq<char>| s != seg@ implies #[trigger] sub_module(*self, s) == sub_module(m, s) by {
                            lemma_find_entry_push(subs, entry, s);
                            lemma_find_entry_bounds(subs, s);
                        }
                        assert forall|q: Seq<Seq<char>>, n: Seq<char>| !(q == rest && n == nm) implies #[trigger] file_at(c2, q, n) is None by {
                            lemma_empty_module_files(c, q, n);
                        }
                        lemma_child_files(m, *self, seg@, c2, rest, nm, vv);
                    }
                },
            }
        }
    }
}


impl Module {
    /// The entry of the file `name` of the module at `path[start..]` below this one.
    fn get_file(&self, path: &Vec<SourceFileIdentifierSegment>, start: usize, name: &String) -> (res: Option<&Result<SourceFile, SourceFileLoadError>>)
        requires
            start <= path@.len(),
        ensures
            match res {
                Some(r) => file_at(*self, segment_names(path@.skip(start as int)), name@) == Some(*r),
                None => file_at(*self, segment_names(path@.skip(start as int)), name@) is None,
            },
        decreases path@.len() - start,
    {
        let ghost target = segment_names(path@.skip(start as int));
        if start == path.len() {
            proof {
                assert(target =~= Seq::<Seq<char>>::empty());
            }
            let mut i: usize = 0;
            while i < self.source_files.len()
                invariant
                    i <= self.source_files@.len(),
                    target == Seq::<Seq<char>>::empty(),
                    target == segment_names(path@.skip(start as int)),
                    forall|j: int| 0 <= j < i ==> (#[trigger] self.source_files@[j]).0@ != name@,
                decreases self.source_files@.len() - i,
            {
                if self.source_files[i].0 == *name {
                    proof {
                        lemma_find_entry_bounds(self.source_files@, name@);
                        if find_entry(self.source_files@, name@) == -1 {
                            assert(self.source_files@[i as int].0@ == name@);
                        } else if find_entry(self.source_files@, name@) > i {
                            assert(self.source_files@[i as int].0@ == name@);
                        }
                    }
                    proof {
                        assert(module_at(*self, target) == Some(*self));
                    }
                    return Some(&self.source_files[i].1);
                }
                i = i + 1;
            }
            proof {
                lemma_find_entry_bounds(self.source_files@, name@);
                if find_entry(self.source_files@, name@) >= 0 {
                    assert(self.source_files@[find_entry(self.source_files@, name@)].0@ == name@);
                }
            }
            None
        } else {
            let seg = &path[start].0;
            let ghost rest = segment_names(path@.skip(start + 1));
            proof {
                assert(target[0] == seg@);
                assert(target.drop_first() =~= rest);
            }
            match self.find_submodule(seg) {
                Some(i) => {
                    proof {
                        lemma_find_entry_bounds(self.submodules@, seg@);
                    }
                    self.submodules[i].1.get_file(path, start + 1, name)
                },
                None => None,
            }
        }
    }
}

/// The module path of a source file, as segment names.
pub open spec fn file_module_path(id: SourceFileIdentifier) -> Seq<Seq<char>> {
    module_segments(id.module)
}

/// Represents the file structure of an entire package: the folders of its projects,
/// and the source files loaded so far, kept in memory.
#[derive(Debug)]
pub struct PackageFileSystem {
    /// The folder holding the sources of each project (e.g. `core`), under the project's name.
    pub project_directories: Vec<(String, String)>,
    root_module: Module,
}

impl PackageFileSystem {
    /// The tree of loaded source files.
    pub closed spec fn root(&self) -> Module {
        self.root_module
    }

    /// The project folders, each under its project's name.
    pub closed spec fn dirs(&self) -> Seq<(String, String)> {
        self.project_directories@
    }

    /// The loaded entry of a source file, if any.
    pub open spec fn file(&self, id: SourceFileIdentifier) -> Option<Result<SourceFile, SourceFileLoadError>> {
        file_at(self.root(), file_module_path(id), id.file.0@)
    }

    /// A package with the given project folders and no loaded files.
    pub fn new(project_directories: Vec<(String, String)>) -> (res: PackageFileSystem)
        ensures
            res.dirs() == project_directories@,
            forall|id: SourceFileIdentifier| #[trigger] res.file(id) is None,
    {
        let res = PackageFileSystem { project_directories, root_module: Module::new() };
        proof {
            assert forall|id: SourceFileIdentifier| #[trigger] res.file(id) is None by {
                lemma_empty_module_files(res.root_module, file_module_path(id), id.file.0@);
            }
        }
        res
    }

    /// The loaded entry of a source file, or `None` if it has not been loaded yet.
    pub fn cached_source_file(&self, identifier: &SourceFileIdentifier) -> (res: Option<&Result<SourceFile, SourceFileLoadError>>)
        ensures
            match res {
                Some(r) => self.file(*identifier) == Some(*r),
                None => self.file(*identifier) is None,
            },
    {
        proof {
            assert(identifier.module.segments@.skip(0) =~= identifier.module.segments@);
        }
        self.root_module.get_file(&identifier.module.segments, 0, &identifier.file.0)
    }

    /// Records the result of loading a source file.
    pub fn insert_source_file(&mut self, identifier: &SourceFileIdentifier, file: Result<SourceFile, SourceFileLoadError>)
        ensures
            final(self).dirs() == old(self).dirs(),
            final(self).file(*identifier) == Some(file),
            forall|id: SourceFileIdentifier| !(file_module_path(id) == file_module_path(*identifier) && id.file.0@ == identifier.file.0@)
                ==> #[trigger] final(self).file(id) == old(self).file(id),
    {
        proof {
            assert(identifier.module.segments@.skip(0) =~= identifier.module.segments@);
        }
        self.root_module.set_file(&identifier.module.segments, 0, identifier.file.0.clone(), Some(file));
    }

    /// Makes sure a source file is in memory: one that is not loaded yet is loaded
    /// with `load`, and what that gives, contents or error, is kept for next time. A
    /// file already in memory leaves the file system as it was; `load` is then not
    /// called (a contract cannot say that a closure is not called: the body shows it).
    pub fn ensure_loaded<F: FnOnce() -> Result<SourceFile, SourceFileLoadError>>(
        &mut self,
        identifier: &SourceFileIdentifier,
        load: F,
    )
        requires
            call_requires(load, ()),
        ensures
            final(self).dirs() == old(self).dirs(),
            old(self).file(*identifier) is Some ==> *final(self) == *old(self),
            match old(self).file(*identifier) {
                Some(r) => final(self).file(*identifier) == Some(r),
                None => final(self).file(*identifier) matches Some(r) && call_ensures(load, (), r),
            },
            forall|id: SourceFileIdentifier| !(file_module_path(id) == file_module_path(*identifier) && id.file.0@ == identifier.file.0@)
                ==> #[trigger] final(self).file(id) == old(self).file(id),
    {
        if self.cached_source_file(identifier).is_none() {
            let loaded = load();
            self.insert_source_file(identifier, loaded);
        }
    }

    /// Removes the cached entry of this source file from memory.
    /// Next time the file is needed, it will be reloaded from disk.
    pub fn remove_cache(&mut self, identifier: &SourceFileIdentifier)
        ensures
            final(self).dirs() == old(self).dirs(),
            final(self).file(*identifier) is None,
            forall|id: SourceFileIdentifier| !(file_module_path(id) == file_module_path(*identifier) && id.file.0@ == identifier.file.0@)
                ==> #[trigger] final(self).file(id) == old(self).file(id),
    {
        proof {
            assert(identifier.module.segments@.skip(0) =~= identifier.module.segments@);
        }
        self.root_module.set_file(&identifier.module.segments, 0, identifier.file.0.clone(), None);
    }

    /// Overwrites the truth of this source file with new contents, modified now.
    pub fn overwrite_source_file(&mut self, identifier: SourceFileIdentifier, contents: String)
        ensures
            final(self).dirs() == old(self).dirs(),
            final(self).file(identifier) matches Some(Ok(f)) && f@ == contents@,
            forall|id: SourceFileIdentifier| !(file_module_path(id) == file_module_path(identifier) && id.file.0@ == identifier.file.0@)
                ==> #[trigger] final(self).file(id) == old(self).file(id),
    {
        let file = SourceFile::new(contents, system_time_now());
        self.insert_source_file(&identifier, Ok(file));
    }

    /// The folder of the project of this name, if the package has one.
    pub fn project_directory(&self, name: &String) -> (res: Option<&String>)
        ensures
            match res {
                Some(d) => find_entry(self.dirs(), name@) >= 0
                    && *d == self.dirs()[find_entry(self.dirs(), name@)].1,
                None => find_entry(self.dirs(), name@) == -1,
            },
    {
        let mut i: usize = 0;
        while i < self.project_directories.len()
            invariant
                i <= self.project_directories@.len(),
                forall|j: int| 0 <= j < i ==> (#[trigger] self.project_directories@[j]).0@ != name@,
            decreases self.project_directories@.len() - i,
        {
            if self.project_directories[i].0 == *name {
                proof {
                    lemma_find_entry_bounds(self.project_directories@, name@);
                    if find_entry(self.project_directories@, name@) == -1 {
                        assert(self.project_directories@[i as int].0@ == name@);
                    } else if find_entry(self.project_directories@, name@) > i {
                        assert(self.project_directories@[i as int].0@ == name@);
                    }
                }
                return Some(&self.project_directories[i].1);
            }
            i = i + 1;
        }
        proof {
            lemma_find_entry_bounds(self.project_directories@, name@);
            if find_entry(self.project_directories@, name@) >= 0 {
                assert(self.project_directories@[find_entry(self.project_directories@, name@)].0@ == name@);
            }
        }
        None
    }
}

/// A character that separates path components on some platform: `/` everywhere,
/// `\\` on Windows.
pub open spec fn is_slash(c: char) -> bool {
    c == '/' || c == '\\'
}

/// A name that is one ordinary path component on every platform: not empty, and
/// without separators, drive colons or dots.
pub open spec fn plain_name(n: Seq<char>) -> bool {
    &&& n.len() > 0
    &&& forall|i: int| 0 <= i < n.len() ==> !is_slash(#[trigger] n[i]) && n[i] != ':' && n[i] != '.'
}

/// A name that a path can be extended by as one relative component on every
/// platform: not empty, and without separators or drive colons.
pub open spec fn join_name(n: Seq<char>) -> bool {
    &&& n.len() > 0
    &&& forall|i: int| 0 <= i < n.len() ==> !is_slash(#[trigger] n[i]) && n[i] != ':'
}

/// The path starts with two separators, as network and verbatim paths do on Windows.
pub open spec fn double_slash_start(p: Seq<char>) -> bool {
    p.len() >= 2 && is_slash(p[0]) && is_slash(p[1])
}

/// `res` is `base` with `part` added below it: directly, or after one separator.
pub open spec fn joined_once(base: Seq<char>, part: Seq<char>, res: Seq<char>) -> bool {
    ||| res == base + part
    ||| res.len() == base.len() + 1 + part.len() && is_slash(res[base.len() as int])
        && res == base + seq![res[base.len() as int]] + part
}

/// No dot of the path marks an extension of its last component, whichever characters
/// the platform takes for separators, and text without dots added to the path keeps
/// it so: every dot is followed, further on, by a `/`, or begins a component (it is
/// first, or follows a `/`) and is the last dot of the path, as in a folder `.ql`.
pub open spec fn dots_outside_extension(p: Seq<char>) -> bool {
    forall|i: int| 0 <= i < p.len() && #[trigger] p[i] == '.' ==> {
        ||| exists|j: int| i < j < p.len() && #[trigger] p[j] == '/'
        ||| (i == 0 || p[i - 1] == '/') && forall|k: int| i < k < p.len() ==> #[trigger] p[k] != '.'
    }
}

/// A path whose last component is a name without an extension, on every platform: it
/// ends in a name character, is no network or verbatim path, and its last component
/// has no dot, or only one that begins it (a name such as `.ql`, whose whole text is
/// its stem).
pub open spec fn extension_appends(p: Seq<char>) -> bool {
    &&& p.len() > 0
    &&& !is_slash(p.last())
    &&& p.last() != ':'
    &&& p.last() != '.'
    &&& !double_slash_start(p)
    &&& dots_outside_extension(p)
}

/// A path whose last component is an ordinary name with an extension, after the dot
/// at `d`, the same on every platform: it ends in a name character, is no network or
/// verbatim path, the dot at `d` is the last dot and has no separator after it, it
/// does not begin its component (whose name is then not `..`), and no drive colon
/// stands in the last component.
pub open spec fn extension_replaced_at(p: Seq<char>, d: int) -> bool {
    &&& 0 < d < p.len()
    &&& p[d] == '.'
    &&& !is_slash(p[d - 1])
    &&& !is_slash(p.last())
    &&& p.last() != ':'
    &&& !double_slash_start(p)
    &&& forall|i: int| d < i < p.len() ==> #[trigger] p[i] != '.' && !is_slash(p[i])
    &&& forall|i: int| 0 <= i < p.len() && #[trigger] p[i] == ':' ==> exists|j: int| i < j < p.len() && #[trigger] is_slash(p[j])
    &&& !(d == p.len() - 1 && p[d - 1] == '.' && (d == 1 || is_slash(p[d - 2])))
}

/// `Path::join`: the path `base` with `part` added below it. As its documentation
/// says, a relative part extends the path; for a name without separators or drive
/// colons added to a path that is not a verbatim one (whose `.` and `..` the function
/// would remove), the text is the base, at most one separator, and the name.
/// Which separator, and whether one is added, is not stated: it depends on the
/// platform.
#[verifier::external_body]
pub(crate) fn path_join(base: &str, part: &str) -> (res: String)
    ensures
        join_name(part@) && !double_slash_start(base@) ==> joined_once(base@, part@, res@),
{
    std::path::Path::new(base).join(part).to_string_lossy().into_owned()
}

/// `Path::with_extension`: the path with the extension of its last component set to
/// `extension`. As its documentation says, where the last component has no extension
/// the extension is added: the text is then the path, a dot and the extension; where
/// it has one (the part after its last dot, when that dot does not begin the name),
/// it is replaced: the text is then the path up to that dot, a dot and the extension.
/// Where the last component is not known to be an ordinary name on every platform,
/// what the text is is not stated: which separators mark a component depends on the
/// platform. An extension with a separator is left out: newer versions of the
/// function panic on it.
#[verifier::external_body]
pub(crate) fn path_with_extension(path: &str, extension: &str) -> (res: String)
    requires
        forall|i: int| 0 <= i < extension@.len() ==> !is_slash(#[trigger] extension@[i]),
    ensures
        extension_appends(path@) && extension@.len() > 0 ==> res@ == path@ + seq!['.'] + extension@,
        forall|d: int| #[trigger] extension_replaced_at(path@, d) && extension@.len() > 0
            ==> res@ == path@.subrange(0, d) + seq!['.'] + extension@,
{
    std::path::Path::new(path).with_extension(extension).to_string_lossy().into_owned()
}

/// `p` is `base` with each of `parts` added below it in turn, each directly or after
/// one separator.
pub open spec fn joined(base: Seq<char>, parts: Seq<Seq<char>>, p: Seq<char>) -> bool
    decreases parts.len(),
{
    if parts.len() == 0 {
        p == base
    } else {
        let n = parts.last();
        &&& p.len() >= n.len()
        &&& p.subrange(p.len() - n.len(), p.len() as int) == n
        &&& {
            let q = p.subrange(0, p.len() - n.len());
            ||| joined(base, parts.drop_last(), q)
            ||| q.len() > 0 && is_slash(q.last()) && joined(base, parts.drop_last(), q.drop_last())
        }
    }
}

/// `res` is the path `p` made of `base` and `parts` (see `joined`), then a dot and
/// the extension.
pub open spec fn path_laid_out(base: Seq<char>, parts: Seq<Seq<char>>, extension: Seq<char>, res: Seq<char>) -> bool {
    &&& res.len() >= extension.len() + 1
    &&& res.subrange(res.len() - extension.len() - 1, res.len() as int) == seq!['.'] + extension
    &&& joined(base, parts, res.subrange(0, res.len() - extension.len() - 1))
}

/// The inputs for which joining names to a folder has a layout known on every
/// platform: a folder that is no network or verbatim path and is not a lone
/// separator, and ordinary names.
pub open spec fn joinable_inputs(base: Seq<char>, parts: Seq<Seq<char>>) -> bool {
    &&& !double_slash_start(base)
    &&& !(base.len() == 1 && is_slash(base[0]))
    &&& forall|i: int| 0 <= i < parts.len() ==> plain_name(#[trigger] parts[i])
}

/// The inputs for which the layout of a path with an extension set on its last name
/// is known on every platform: joinable ones (`joinable_inputs`) whose folder has no
/// dot that could end up marking an extension (`dots_outside_extension`).
pub open spec fn plain_path_inputs(base: Seq<char>, parts: Seq<Seq<char>>) -> bool {
    &&& joinable_inputs(base, parts)
    &&& dots_outside_extension(base)
}

/// Adding an ordinary name keeps a path from starting like a network path.
pub(crate) proof fn lemma_join_start(base: Seq<char>, part: Seq<char>, res: Seq<char>)
    requires
        !double_slash_start(base),
        !(base.len() == 1 && is_slash(base[0])),
        join_name(part),
        joined_once(base, part, res),
    ensures
        !double_slash_start(res),
        !(res.len() == 1 && is_slash(res[0])),
        res.len() > 0 && res.last() == part.last(),
{
    assert(!is_slash(part[0]));
    if res == base + part {
        assert(res.last() == part.last());
        if base.len() == 0 {
            assert(res[0] == part[0]);
        } else if base.len() == 1 {
            assert(res[0] == base[0]);
        } else {
            assert(res[0] == base[0] && res[1] == base[1]);
        }
    } else {
        assert(res.last() == part.last());
        if base.len() == 0 {
            assert(res[1] == part[0]);
        } else if base.len() == 1 {
            assert(res[0] == base[0]);
        } else {
            assert(res[0] == base[0] && res[1] == base[1]);
        }
    }
}

/// Adding dot-free text keeps the dots out of the last component's extension.
pub(crate) proof fn lemma_dots_append(p: Seq<char>, t: Seq<char>)
    requires
        dots_outside_extension(p),
        forall|i: int| 0 <= i < t.len() ==> #[trigger] t[i] != '.',
    ensures
        dots_outside_extension(p + t),
{
    let r = p + t;
    assert forall|i: int| 0 <= i < r.len() && #[trigger] r[i] == '.' implies {
        ||| exists|j: int| i < j < r.len() && #[trigger] r[j] == '/'
        ||| (i == 0 || r[i - 1] == '/') && forall|k: int| i < k < r.len() ==> #[trigger] r[k] != '.'
    } by {
        if i < p.len() {
            assert(p[i] == '.');
            if exists|j: int| i < j < p.len() && #[trigger] p[j] == '/' {
                let j = choose|j: int| i < j < p.len() && #[trigger] p[j] == '/';
                assert(r[j] == '/');
            } else {
                if i > 0 {
                    assert(r[i - 1] == p[i - 1]);
                }
                assert forall|k: int| i < k < r.len() implies #[trigger] r[k] != '.' by {
                    if k < p.len() {
                        assert(r[k] == p[k]);
                    } else {
                        assert(r[k] == t[k - p.len()]);
                    }
                }
            }
        } else {
            assert(t[i - p.len()] == '.');
        }
    }
}

/// One more name added keeps the path laid out.
pub(crate) proof fn lemma_joined_step(base: Seq<char>, parts: Seq<Seq<char>>, p: Seq<char>, part: Seq<char>, res: Seq<char>)
    requires
        joined(base, parts, p),
        joined_once(p, part, res),
    ensures
        joined(base, parts.push(part), res),
{
    let ps = parts.push(part);
    assert(ps.last() == part);
    assert(ps.drop_last() =~= parts);
    assert(res.subrange(res.len() - part.len(), res.len() as int) =~= part);
    let q = res.subrange(0, res.len() - part.len());
    if res == p + part {
        assert(q =~= p);
    } else {
        assert(q.drop_last() =~= p);
    }
}

impl PackageFileSystem {
    /// The pieces of the path on disk of a source file: the folder of the project
    /// named by the first segment of its module path, then the folders of the
    /// remaining segments and the file name, and the extension of its kind.
    pub fn file_path_parts(&self, identifier: &SourceFileIdentifier) -> (res: (String, Vec<String>, &'static str))
        requires
            identifier.module.segments@.len() > 0,
            find_entry(self.dirs(), identifier.module.segments@[0].0@) >= 0,
        ensures
            res.0@ == self.dirs()[find_entry(self.dirs(), identifier.module.segments@[0].0@)].1@,
            string_texts(res.1@) == segment_names(identifier.module.segments@).drop_first().push(identifier.file.0@),
            res.2@ == spec_file_extension(identifier.file_type),
    {
        let directory = self.project_directory(&identifier.module.segments[0].0).unwrap().clone();
        let mut components: Vec<String> = Vec::new();
        let ghost names = segment_names(identifier.module.segments@);
        let mut i: usize = 1;
        while i < identifier.module.segments.len()
            invariant
                1 <= i <= identifier.module.segments@.len(),
                names == segment_names(identifier.module.segments@),
                string_texts(components@) == names.subrange(1, i as int),
            decreases identifier.module.segments@.len() - i,
        {
            let ghost prev = components@;
            components.push(identifier.module.segments[i].0.clone());
            proof {
                assert(names[i as int] == identifier.module.segments@[i as int].0@);
                assert(components@ == prev.push(components@.last()));
                assert(string_texts(components@) =~= string_texts(prev).push(names[i as int]));
                assert(string_texts(components@) =~= names.subrange(1, i + 1));
            }
            i = i + 1;
        }
        let ghost prev = components@;
        components.push(identifier.file.0.clone());
        proof {
            assert(string_texts(components@) =~= string_texts(prev).push(identifier.file.0@));
            assert(names.subrange(1, names.len() as int) =~= names.drop_first());
        }
        (directory, components, identifier.file_type.file_extension())
    }

    /// The path on disk of a source file: its pieces (`file_path_parts`) joined with
    /// the platform's separator, with the extension set on the file name. Where the
    /// project's folder and the names are plain enough for the layout to be the same
    /// on every platform, the path is the folder, each name after at most one
    /// separator, a dot and the extension.
    pub fn file_path(&self, identifier: &SourceFileIdentifier) -> (res: String)
        requires
            identifier.module.segments@.len() > 0,
            find_entry(self.dirs(), identifier.module.segments@[0].0@) >= 0,
        ensures
            ({
                let dir = self.dirs()[find_entry(self.dirs(), identifier.module.segments@[0].0@)].1@;
                let names = segment_names(identifier.module.segments@).drop_first().push(identifier.file.0@);
                plain_path_inputs(dir, names)
                    ==> path_laid_out(dir, names, spec_file_extension(identifier.file_type), res@)
            }),
    {
        let (directory, components, extension) = self.file_path_parts(identifier);
        let ghost dir = directory@;
        let ghost names = string_texts(components@);
        let mut path = directory;
        let mut i: usize = 0;
        while i < components.len()
            invariant
                i <= components@.len(),
                names == string_texts(components@),
                plain_path_inputs(dir, names) ==> {
                    &&& joined(dir, names.take(i as int), path@)
                    &&& !double_slash_start(path@)
                    &&& !(path@.len() == 1 && is_slash(path@[0]))
                    &&& dots_outside_extension(path@)
                    &&& (i > 0 ==> path@.len() > 0 && path@.last() == names[i - 1].last())
                },
            decreases components@.len() - i,
        {
            let ghost prev = path@;
            path = path_join(path.as_str(), components[i].as_str());
            proof {
                assert(names[i as int] == components@[i as int]@);
                if plain_path_inputs(dir, names) {
                    let part = names[i as int];
                    assert(plain_name(part));
                    assert(join_name(part));
                    lemma_join_start(prev, part, path@);
                    lemma_joined_step(dir, names.take(i as int), prev, part, path@);
                    assert(names.take(i + 1) =~= names.take(i as int).push(part));
                    if path@ == prev + part {
                        lemma_dots_append(prev, part);
                    } else {
                        let t = seq![path@[prev.len() as int]] + part;
                        assert(path@ =~= prev + t);
                        lemma_dots_append(prev, t);
                    }
                }
            }
            i = i + 1;
        }
        proof {
            assert(names.take(names.len() as int) =~= names);
            if identifier.file_type == SourceFileType::Quill {
                reveal_strlit("ql");
            } else {
                reveal_strlit("toml");
            }
        }
        let res = path_with_extension(path.as_str(), extension);
        proof {
            if plain_path_inputs(dir, names) {
                let file = names[names.len() - 1];
                assert(plain_name(file));
                assert(path@.last() == file[file.len() - 1]);
                let e = extension@;
                assert(res@.subrange(res@.len() - e.len() - 1, res@.len() as int) =~= seq!['.'] + e);
                assert(res@.subrange(0, res@.len() - e.len() - 1) =~= path@);
            }
        }
        res
    }
}

/// Does `s` end with `suffix`?
pub open spec fn ends_with(s: Seq<char>, suffix: Seq<char>) -> bool {
    s.len() >= suffix.len() && s.subrange(s.len() - suffix.len(), s.len() as int) == suffix
}

/// The extension of Quill source files, with its dot.
pub open spec fn quill_suffix() -> Seq<char> {
    seq!['.', 'q', 'l']
}

/// The Quill source file held by a file named `file_name` in the folder of `module`:
/// a file named `<name>.ql` is the source file `<name>` of that module; other files
/// hold none.
pub fn source_file_for_entry(module: &ModuleIdentifier, file_name: &str) -> (res: Option<SourceFileIdentifier>)
    ensures
        res is Some <==> ends_with(file_name@, quill_suffix()),
        match res {
            Some(id) => {
                &&& module_segments(id.module) == module_segments(*module)
                &&& id.file.0@ == file_name@.subrange(0, file_name@.len() - 3)
                &&& id.file_type == SourceFileType::Quill
            },
            None => true,
        },
{
    let n = file_name.unicode_len();
    if n < 3 {
        return None;
    }
    let tail = file_name.substring_char(n - 3, n);
    let dot = tail.get_char(0);
    let q = tail.get_char(1);
    let l = tail.get_char(2);
    if dot == '.' && q == 'q' && l == 'l' {
        assert(tail@ =~= quill_suffix());
        let stem = file_name.substring_char(0, n - 3);
        Some(SourceFileIdentifier {
            module: module.duplicate(),
            file: SourceFileIdentifierSegment(String::from_str(stem)),
            file_type: SourceFileType::Quill,
        })
    } else {
        proof {
            if ends_with(file_name@, quill_suffix()) {
                assert(tail@ == quill_suffix());
                assert(tail@[0] == '.' && tail@[1] == 'q' && tail@[2] == 'l');
            }
        }
        None
    }
}

/// The module held by a folder named `folder_name` in the folder of `module`.
pub fn submodule(module: &ModuleIdentifier, folder_name: &str) -> (res: ModuleIdentifier)
    ensures
        module_segments(res) == module_segments(*module).push(folder_name@),
{
    let mut res = module.duplicate();
    let ghost before = res.segments@;
    res.segments.push(SourceFileIdentifierSegment(String::from_str(folder_name)));
    assert(module_segments(res) =~= segment_names(before).push(folder_name@));
    res
}

/// Two writes to different files of the tree are independent: afterwards each file
/// holds what was written to it, and every other file what it held before.
pub proof fn lemma_independent_writes(
    m0: Module,
    m1: Module,
    m2: Module,
    path1: Seq<Seq<char>>,
    name1: Seq<char>,
    v1: Option<Result<SourceFile, SourceFileLoadError>>,
    path2: Seq<Seq<char>>,
    name2: Seq<char>,
    v2: Option<Result<SourceFile, SourceFileLoadError>>,
)
    requires
        set_file_spec(m0, m1, path1, name1, v1),
        set_file_spec(m1, m2, path2, name2, v2),
        !(path1 == path2 && name1 == name2),
    ensures
        file_at(m2, path1, name1) == v1,
        file_at(m2, path2, name2) == v2,
        forall|p: Seq<Seq<char>>, n: Seq<char>|
            !(p == path1 && n == name1) && !(p == path2 && n == name2)
            ==> #[trigger] file_at(m2, p, n) == file_at(m0, p, n),
{
    assert(file_at(m2, path1, name1) == file_at(m1, path1, name1));
}

/// A write followed by a write to the same file is the second write alone.
pub proof fn lemma_last_write_wins(
    m0: Module,
    m1: Module,
    m2: Module,
    path: Seq<Seq<char>>,
    name: Seq<char>,
    v1: Option<Result<SourceFile, SourceFileLoadError>>,
    v2: Option<Result<SourceFile, SourceFileLoadError>>,
)
    requires
        set_file_spec(m0, m1, path, name, v1),
        set_file_spec(m1, m2, path, name, v2),
    ensures
        set_file_spec(m0, m2, path, name, v2),
{
    assert forall|p: Seq<Seq<char>>, n: Seq<char>| !(p == path && n == name) implies #[trigger] file_at(m2, p, n)
        == file_at(m0, p, n) by {
        assert(file_at(m2, p, n) == file_at(m1, p, n));
        assert(file_at(m1, p, n) == file_at(m0, p, n));
    }
}

/// Two identifiers name the same cache entry: the same module path and file name.
pub open spec fn same_entry(a: SourceFileIdentifier, b: SourceFileIdentifier) -> bool {
    file_module_path(a) == file_module_path(b) && a.file.0@ == b.file.0@
}

/// From `a` to `b`, only the entry of `id` may have changed, as after
/// `insert_source_file`, `remove_cache`, `overwrite_source_file` or `ensure_loaded`.
pub open spec fn changes_only(a: PackageFileSystem, b: PackageFileSystem, id: SourceFileIdentifier) -> bool {
    forall|other: SourceFileIdentifier| !same_entry(other, id) ==> #[trigger] b.file(other) == a.file(other)
}

/// What an overwrite stores is read back however many changes to other files come
/// after it: in a run of states where the first step stores `contents` for `id` and
/// every later step changes only the entry of another file, the last state still
/// holds `contents` for `id`.
pub proof fn lemma_overwrite_survives(
    states: Seq<PackageFileSystem>,
    ids: Seq<SourceFileIdentifier>,
    id: SourceFileIdentifier,
    contents: Seq<char>,
)
    requires
        states.len() >= 2,
        ids.len() == states.len() - 1,
        states[1].file(id) matches Some(Ok(f)) && f@ == contents,
        forall|i: int| 1 <= i < ids.len() ==> !same_entry(id, #[trigger] ids[i]),
        forall|i: int| 1 <= i < ids.len() ==> changes_only(#[trigger] states[i], states[i + 1], ids[i]),
    ensures
        states.last().file(id) matches Some(Ok(f)) && f@ == contents,
    decreases states.len(),
{
    if states.len() > 2 {
        let n = states.len() - 1;
        lemma_overwrite_survives(states.drop_last(), ids.drop_last(), id, contents);
        assert(states.drop_last().last() == states[n - 1]);
        assert(changes_only(states[n - 1], states[n], ids[n - 1]));
        assert(!same_entry(id, ids[n - 1]));
        assert(states[n].file(id) == states[n - 1].file(id));
    }
}

} // verus!
