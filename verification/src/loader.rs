//! The loader: decode every compiled module artifact and dependency
//! descriptor found under the library roots into the frozen snapshot
//! {Interner, Modules, Apps, AppDeps}.
//!
//! The loader works on plain values: each library root arrives as the list
//! of its application directories, each directory as its display path and
//! the name and bytes of every file in it. Loading is fail-fast and
//! all-or-nothing: the first undecodable artifact, missing descriptor or
//! unexpected file aborts the whole load.

use vstd::prelude::*;
use vstd::utf8::{decode_utf8, valid_utf8};

use crate::beam::{bytes_to_string, parse_module, spec_module, ArtifactError, ModuleNames, StringModule};
use crate::graph::{graph_add_edge, graph_add_node, graph_edges, graph_new, graph_nodes, AppDeps};
use crate::types::{assoc_put, resolve_atom, App, Apps, AppView, Atom, Interner, ModuleCode, ModuleCodeView, Modules};

verus! {

/// One file of an application's module-output directory: its file name and
/// its raw contents.
pub struct FileEntry {
    pub name: String,
    pub bytes: Vec<u8>,
}

#[verifier::ext_equal]
pub struct FileEntryView {
    pub name: Seq<char>,
    pub bytes: Seq<u8>,
}

impl View for FileEntry {
    type V = FileEntryView;

    open spec fn view(&self) -> FileEntryView {
        FileEntryView { name: self.name@, bytes: self.bytes@ }
    }
}

impl DeepView for FileEntry {
    type V = FileEntryView;

    open spec fn deep_view(&self) -> FileEntryView {
        self.view()
    }
}

/// One application directory: its display path (for error messages) and
/// its files, in iteration order.
pub struct AppDir {
    pub path: String,
    pub files: Vec<FileEntry>,
}

#[verifier::ext_equal]
pub struct AppDirView {
    pub path: Seq<char>,
    pub files: Seq<FileEntryView>,
}

impl View for AppDir {
    type V = AppDirView;

    open spec fn view(&self) -> AppDirView {
        AppDirView { path: self.path@, files: self.files.deep_view() }
    }
}

impl DeepView for AppDir {
    type V = AppDirView;

    open spec fn deep_view(&self) -> AppDirView {
        self.view()
    }
}

/// One library root: its application directories, in iteration order.
pub struct LibRoot {
    pub apps: Vec<AppDir>,
}

#[verifier::ext_equal]
pub struct LibRootView {
    pub apps: Seq<AppDirView>,
}

impl View for LibRoot {
    type V = LibRootView;

    open spec fn view(&self) -> LibRootView {
        LibRootView { apps: self.apps.deep_view() }
    }
}

impl DeepView for LibRoot {
    type V = LibRootView;

    open spec fn deep_view(&self) -> LibRootView {
        self.view()
    }
}

/// What a file name means to the loader, by its extension.
#[derive(Clone, Copy, PartialEq, Eq, Structural, Debug)]
pub enum FileKind {
    /// A compiled module artifact.
    Module,
    /// A dependency descriptor.
    Descriptor,
    /// A recognized-but-ignored extension, or no extension at all.
    Ignored,
    /// Any other extension: a fatal load error.
    Unexpected,
}

/// A fatal load error; any one aborts the whole load.
#[derive(Debug)]
pub enum LoadError {
    /// An unreadable file or directory, or a descriptor that is not text.
    Io { path: String },
    /// An artifact whose required chunks are missing or unparseable.
    MalformedArtifact { path: String, cause: ArtifactError },
    /// An application directory with no descriptor file.
    MissingDescriptor { dir: String },
    /// A file with an unrecognized extension.
    UnexpectedFile { path: String },
}

/// `LoadError` at the specification level.
#[verifier::ext_equal]
pub enum LoadErrNames {
    Io { path: Seq<char> },
    MalformedArtifact { path: Seq<char>, cause: ArtifactError },
    MissingDescriptor { dir: Seq<char> },
    UnexpectedFile { path: Seq<char> },
}

impl View for LoadError {
    type V = LoadErrNames;

    open spec fn view(&self) -> LoadErrNames {
        match self {
            LoadError::Io { path } => LoadErrNames::Io { path: path@ },
            LoadError::MalformedArtifact { path, cause } => LoadErrNames::MalformedArtifact {
                path: path@,
                cause: *cause,
            },
            LoadError::MissingDescriptor { dir } => LoadErrNames::MissingDescriptor { dir: dir@ },
            LoadError::UnexpectedFile { path } => LoadErrNames::UnexpectedFile { path: path@ },
        }
    }
}

impl DeepView for LoadError {
    type V = LoadErrNames;

    open spec fn deep_view(&self) -> LoadErrNames {
        self.view()
    }
}

/// The position of the last `.` in `name` at or before `i`, never counting
/// a leading dot, or -1.
pub open spec fn last_dot_from(name: Seq<char>, i: int) -> int
    decreases i,
{
    if i < 1 || i >= name.len() {
        -1
    } else if name[i] == '.' {
        i
    } else {
        last_dot_from(name, i - 1)
    }
}

/// The extension of a file name: what follows the last dot, where a dot
/// that leads the name does not count (a dot-file has no extension).
pub open spec fn ext_of(name: Seq<char>) -> Option<Seq<char>> {
    let d = last_dot_from(name, name.len() - 1);
    if d < 0 {
        None
    } else {
        Some(name.skip(d + 1))
    }
}

/// The file name with its extension (and the dot) removed; the whole name
/// when it has no extension.
pub open spec fn stem_of(name: Seq<char>) -> Seq<char> {
    let d = last_dot_from(name, name.len() - 1);
    if d < 0 {
        name
    } else {
        name.take(d)
    }
}

/// How the loader treats a file, by its extension.
pub open spec fn classify_name(name: Seq<char>) -> FileKind {
    match ext_of(name) {
        None => FileKind::Ignored,
        Some(e) => if e == "beam"@ {
            FileKind::Module
        } else if e == "app"@ {
            FileKind::Descriptor
        } else if e == "appup"@ || e == "hrl"@ || e == "am"@ {
            FileKind::Ignored
        } else {
            FileKind::Unexpected
        },
    }
}

/// The dependency application names that the descriptor-extraction
/// heuristic draws from a descriptor's text: the comma-separated
/// identifiers of its "applications" and "included_applications" clauses.
/// The result depends on the text alone.
pub uninterp spec fn dep_names_of(text: Seq<char>) -> Seq<Seq<char>>;

/// Relies on regex's `Regex::new`, `captures_iter` and `split` over two
/// fixed patterns: collects the comma-separated identifiers of every
/// "applications"/"included_applications" clause of the descriptor text.
/// The result is a function of the text alone.
#[verifier::external_body]
fn extract_dep_names(text: &str) -> (r: Vec<String>)
    ensures
        r.deep_view() == dep_names_of(text@),
{
    let apps = regex::Regex::new(
        r"\{\s*(?:included_)?applications\s*,\s*\[\s*([0-9a-z_,\s]+)\s*\]\s*\}",
    ).unwrap();
    let comma = regex::Regex::new(r"\s*,\s*").unwrap();
    apps.captures_iter(text)
        .flat_map(|caps| comma.split(caps.get(1).unwrap().as_str()))
        .map(|s| s.to_string())
        .collect()
}

/// A path for error messages: the directory's path, a slash, the file name.
pub open spec fn joined_path(dir: Seq<char>, name: Seq<char>) -> Seq<char> {
    dir + "/"@ + name
}

/// What loading one application directory yields: the application's name
/// (the descriptor's stem), its declared dependency names, and its decoded
/// modules in file order.
#[verifier::ext_equal]
pub struct AppLoad {
    pub name: Seq<char>,
    pub deps: Seq<Seq<char>>,
    pub modules: Seq<ModuleNames>,
}

/// The file-by-file outcome of one application directory, folded in file
/// order: the last descriptor's (name, dependencies) if any, and the
/// decoded modules. The first failing file aborts.
pub open spec fn spec_app_files(dir: Seq<char>, files: Seq<FileEntryView>) -> Result<
    (Option<(Seq<char>, Seq<Seq<char>>)>, Seq<ModuleNames>),
    LoadErrNames,
>
    decreases files.len(),
{
    if files.len() == 0 {
        Ok((None, Seq::empty()))
    } else {
        match spec_app_files(dir, files.drop_last()) {
            Err(e) => Err(e),
            Ok(st) => {
                let f = files.last();
                match classify_name(f.name) {
                    FileKind::Ignored => Ok(st),
                    FileKind::Module => match spec_module(f.bytes) {
                        Err(c) => Err(
                            LoadErrNames::MalformedArtifact {
                                path: joined_path(dir, f.name),
                                cause: c,
                            },
                        ),
                        Ok(mn) => Ok((st.0, st.1.push(mn))),
                    },
                    FileKind::Descriptor => if !valid_utf8(f.bytes) {
                        Err(LoadErrNames::Io { path: joined_path(dir, f.name) })
                    } else {
                        Ok(
                            (
                                Some((stem_of(f.name), dep_names_of(decode_utf8(f.bytes)))),
                                st.1,
                            ),
                        )
                    },
                    FileKind::Unexpected => Err(
                        LoadErrNames::UnexpectedFile { path: joined_path(dir, f.name) },
                    ),
                }
            },
        }
    }
}

/// What loading one application directory yields; a directory without a
/// descriptor is a fatal error.
pub open spec fn spec_read_app(d: AppDirView) -> Result<AppLoad, LoadErrNames> {
    match spec_app_files(d.path, d.files) {
        Err(e) => Err(e),
        Ok(st) => match st.0 {
            None => Err(LoadErrNames::MissingDescriptor { dir: d.path }),
            Some(nd) => Ok(AppLoad { name: nd.0, deps: nd.1, modules: st.1 }),
        },
    }
}

/// One application of the snapshot, at the level of names.
#[verifier::ext_equal]
pub struct AppNames {
    pub name: Seq<char>,
    pub deps: Seq<Seq<char>>,
    pub modules: Seq<Seq<char>>,
}

/// The whole snapshot at the level of names: the module symbol table and
/// the application table, both uniquely keyed, later inserts replacing
/// earlier entries in place.
#[verifier::ext_equal]
pub struct SnapNames {
    pub modules: Seq<(Seq<char>, ModuleNames)>,
    pub apps: Seq<(Seq<char>, AppNames)>,
}

/// The empty snapshot.
pub open spec fn snap_empty() -> SnapNames {
    SnapNames { modules: Seq::empty(), apps: Seq::empty() }
}

/// Insert the given modules into the module table in order, each keyed by
/// its own name (a duplicate name replaces the earlier module).
pub open spec fn put_modules(
    ms: Seq<(Seq<char>, ModuleNames)>,
    mods: Seq<ModuleNames>,
) -> Seq<(Seq<char>, ModuleNames)>
    decreases mods.len(),
{
    if mods.len() == 0 {
        ms
    } else {
        assoc_put(put_modules(ms, mods.drop_last()), mods.last().name, mods.last())
    }
}

/// The application-table entry a loaded application becomes: its name,
/// its dependency names, and the names of the modules it owns.
pub open spec fn app_names_of(al: AppLoad) -> AppNames {
    AppNames { name: al.name, deps: al.deps, modules: al.modules.map_values(|m: ModuleNames| m.name) }
}

/// Merge one loaded application into the snapshot: its modules into the
/// module table, and the application itself under its name (a duplicate
/// application name replaces the earlier application: last write wins).
pub open spec fn snap_add_app(s: SnapNames, al: AppLoad) -> SnapNames {
    SnapNames {
        modules: put_modules(s.modules, al.modules),
        apps: assoc_put(s.apps, al.name, app_names_of(al)),
    }
}

/// Load the application directories in order onto a starting snapshot,
/// aborting on the first failing directory.
pub open spec fn spec_load_from(s0: SnapNames, dirs: Seq<AppDirView>) -> Result<
    SnapNames,
    LoadErrNames,
>
    decreases dirs.len(),
{
    if dirs.len() == 0 {
        Ok(s0)
    } else {
        match spec_load_from(s0, dirs.drop_last()) {
            Err(e) => Err(e),
            Ok(s) => match spec_read_app(dirs.last()) {
                Err(e) => Err(e),
                Ok(al) => Ok(snap_add_app(s, al)),
            },
        }
    }
}

/// Every application directory of the given roots, in iteration order.
pub open spec fn dirs_of_roots(roots: Seq<LibRootView>) -> Seq<AppDirView>
    decreases roots.len(),
{
    if roots.len() == 0 {
        Seq::empty()
    } else {
        dirs_of_roots(roots.drop_last()) + roots.last().apps
    }
}

/// The atoms of a list, resolved to their names.
pub open spec fn abs_atoms(tbl: Seq<Seq<char>>, s: Seq<Atom>) -> Seq<Seq<char>> {
    s.map_values(|a: Atom| resolve_atom(tbl, a))
}

/// A (function atom, arity) list, resolved to names.
pub open spec fn abs_falist(tbl: Seq<Seq<char>>, s: Seq<(Atom, u32)>) -> Seq<(Seq<char>, u32)> {
    s.map_values(|fa: (Atom, u32)| (resolve_atom(tbl, fa.0), fa.1))
}

/// An imports list, resolved to names.
pub open spec fn abs_imports(tbl: Seq<Seq<char>>, s: Seq<(Atom, Seq<(Atom, u32)>)>) -> Seq<
    (Seq<char>, Seq<(Seq<char>, u32)>),
> {
    s.map_values(|e: (Atom, Seq<(Atom, u32)>)| (resolve_atom(tbl, e.0), abs_falist(tbl, e.1)))
}

/// A module table entry, resolved to the names it stands for.
pub open spec fn abs_code(tbl: Seq<Seq<char>>, key: Atom, c: ModuleCodeView) -> ModuleNames {
    ModuleNames {
        name: resolve_atom(tbl, key),
        imports: abs_imports(tbl, c.imports),
        exports: abs_falist(tbl, c.exports),
    }
}

/// The module table, resolved to names.
pub open spec fn abs_modules(tbl: Seq<Seq<char>>, ms: Seq<(Atom, ModuleCodeView)>) -> Seq<
    (Seq<char>, ModuleNames),
> {
    ms.map_values(|e: (Atom, ModuleCodeView)| (resolve_atom(tbl, e.0), abs_code(tbl, e.0, e.1)))
}

/// An application, resolved to names.
pub open spec fn abs_app(tbl: Seq<Seq<char>>, a: AppView) -> AppNames {
    AppNames {
        name: resolve_atom(tbl, a.name),
        deps: abs_atoms(tbl, a.deps),
        modules: abs_atoms(tbl, a.modules),
    }
}

/// The application table, resolved to names.
pub open spec fn abs_apps(tbl: Seq<Seq<char>>, s: Seq<(Atom, AppView)>) -> Seq<
    (Seq<char>, AppNames),
> {
    s.map_values(|e: (Atom, AppView)| (resolve_atom(tbl, e.0), abs_app(tbl, e.1)))
}

/// Every atom of the list was produced by a table of length `n`.
pub open spec fn atoms_ok(n: nat, s: Seq<Atom>) -> bool {
    forall|i: int| 0 <= i < s.len() ==> (#[trigger] s[i]).0 < n
}

pub open spec fn fas_ok(n: nat, s: Seq<(Atom, u32)>) -> bool {
    forall|i: int| 0 <= i < s.len() ==> (#[trigger] s[i]).0.0 < n
}

pub open spec fn imports_ok(n: nat, s: Seq<(Atom, Seq<(Atom, u32)>)>) -> bool {
    forall|i: int| 0 <= i < s.len() ==> (#[trigger] s[i]).0.0 < n && fas_ok(n, s[i].1)
}

pub open spec fn code_ok(n: nat, c: ModuleCodeView) -> bool {
    imports_ok(n, c.imports) && fas_ok(n, c.exports)
}

pub open spec fn modules_ok(n: nat, ms: Seq<(Atom, ModuleCodeView)>) -> bool {
    forall|i: int| 0 <= i < ms.len() ==> (#[trigger] ms[i]).0.0 < n && code_ok(n, ms[i].1)
}

pub open spec fn app_ok(n: nat, a: AppView) -> bool {
    a.name.0 < n && atoms_ok(n, a.deps) && atoms_ok(n, a.modules)
}

pub open spec fn apps_ok(n: nat, s: Seq<(Atom, AppView)>) -> bool {
    forall|i: int| 0 <= i < s.len() ==> (#[trigger] s[i]).0.0 < n && app_ok(n, s[i].1)
}

/// The names are pairwise distinct (what `Interner::wf` states of a table).
pub open spec fn distinct_names(tbl: Seq<Seq<char>>) -> bool {
    forall|i: int, j: int| 0 <= i < j < tbl.len() ==> tbl[i] != tbl[j]
}

/// A prefix keeps every entry it already had.
proof fn lemma_prefix_index(pre: Seq<Seq<char>>, cur: Seq<Seq<char>>)
    requires
        pre.is_prefix_of(cur),
    ensures
        forall|j: int| 0 <= j < pre.len() ==> cur[j] == pre[j],
{
    assert forall|j: int| 0 <= j < pre.len() implies cur[j] == pre[j] by {
        assert(pre[j] == cur.subrange(0, pre.len() as int)[j]);
    }
}

/// Growing the table does not change what existing atoms resolve to.
proof fn lemma_resolve_stable(pre: Seq<Seq<char>>, cur: Seq<Seq<char>>, a: Atom)
    requires
        pre.is_prefix_of(cur),
        a.0 < pre.len(),
    ensures
        resolve_atom(cur, a) == resolve_atom(pre, a),
{
    lemma_prefix_index(pre, cur);
}

proof fn lemma_abs_atoms_stable(pre: Seq<Seq<char>>, cur: Seq<Seq<char>>, s: Seq<Atom>)
    requires
        pre.is_prefix_of(cur),
        atoms_ok(pre.len(), s),
    ensures
        abs_atoms(cur, s) == abs_atoms(pre, s),
{
    assert forall|i: int| 0 <= i < s.len() implies abs_atoms(cur, s)[i] == abs_atoms(pre, s)[i] by {
        lemma_resolve_stable(pre, cur, s[i]);
    }
    assert(abs_atoms(cur, s) =~= abs_atoms(pre, s));
}

proof fn lemma_abs_falist_stable(pre: Seq<Seq<char>>, cur: Seq<Seq<char>>, s: Seq<(Atom, u32)>)
    requires
        pre.is_prefix_of(cur),
        fas_ok(pre.len(), s),
    ensures
        abs_falist(cur, s) == abs_falist(pre, s),
{
    assert forall|i: int| 0 <= i < s.len() implies abs_falist(cur, s)[i] == abs_falist(pre, s)[i] by {
        lemma_resolve_stable(pre, cur, s[i].0);
    }
    assert(abs_falist(cur, s) =~= abs_falist(pre, s));
}

proof fn lemma_abs_imports_stable(
    pre: Seq<Seq<char>>,
    cur: Seq<Seq<char>>,
    s: Seq<(Atom, Seq<(Atom, u32)>)>,
)
    requires
        pre.is_prefix_of(cur),
        imports_ok(pre.len(), s),
    ensures
        abs_imports(cur, s) == abs_imports(pre, s),
{
    assert forall|i: int| 0 <= i < s.len() implies abs_imports(cur, s)[i] == abs_imports(pre, s)[i] by {
        lemma_resolve_stable(pre, cur, s[i].0);
        lemma_abs_falist_stable(pre, cur, s[i].1);
    }
    assert(abs_imports(cur, s) =~= abs_imports(pre, s));
}

proof fn lemma_abs_code_stable(pre: Seq<Seq<char>>, cur: Seq<Seq<char>>, k: Atom, c: ModuleCodeView)
    requires
        pre.is_prefix_of(cur),
        k.0 < pre.len(),
        code_ok(pre.len(), c),
    ensures
        abs_code(cur, k, c) == abs_code(pre, k, c),
{
    lemma_resolve_stable(pre, cur, k);
    lemma_abs_imports_stable(pre, cur, c.imports);
    lemma_abs_falist_stable(pre, cur, c.exports);
}

proof fn lemma_abs_modules_stable(
    pre: Seq<Seq<char>>,
    cur: Seq<Seq<char>>,
    ms: Seq<(Atom, ModuleCodeView)>,
)
    requires
        pre.is_prefix_of(cur),
        modules_ok(pre.len(), ms),
    ensures
        abs_modules(cur, ms) == abs_modules(pre, ms),
{
    assert forall|i: int| 0 <= i < ms.len() implies abs_modules(cur, ms)[i] == abs_modules(
        pre,
        ms,
    )[i] by {
        lemma_resolve_stable(pre, cur, ms[i].0);
        lemma_abs_code_stable(pre, cur, ms[i].0, ms[i].1);
    }
    assert(abs_modules(cur, ms) =~= abs_modules(pre, ms));
}

proof fn lemma_abs_apps_stable(pre: Seq<Seq<char>>, cur: Seq<Seq<char>>, s: Seq<(Atom, AppView)>)
    requires
        pre.is_prefix_of(cur),
        apps_ok(pre.len(), s),
    ensures
        abs_apps(cur, s) == abs_apps(pre, s),
{
    assert forall|i: int| 0 <= i < s.len() implies abs_apps(cur, s)[i] == abs_apps(pre, s)[i] by {
        lemma_resolve_stable(pre, cur, s[i].0);
        lemma_resolve_stable(pre, cur, s[i].1.name);
        lemma_abs_atoms_stable(pre, cur, s[i].1.deps);
        lemma_abs_atoms_stable(pre, cur, s[i].1.modules);
    }
    assert(abs_apps(cur, s) =~= abs_apps(pre, s));
}

/// On a table of distinct names, two valid atoms are equal exactly when
/// their names are.
proof fn lemma_resolve_injective(tbl: Seq<Seq<char>>, a: Atom, b: Atom)
    requires
        distinct_names(tbl),
        a.0 < tbl.len(),
        b.0 < tbl.len(),
    ensures
        (resolve_atom(tbl, a) == resolve_atom(tbl, b)) == (a == b),
{
    if a.0 < b.0 {
        assert(tbl[a.0 as int] != tbl[b.0 as int]);
    } else if b.0 < a.0 {
        assert(tbl[b.0 as int] != tbl[a.0 as int]);
    }
}

/// Looking a key up in the abstracted module table lands on the same entry
/// as looking its atom up in the atom-level table.
proof fn lemma_abs_index_modules(
    tbl: Seq<Seq<char>>,
    ms: Seq<(Atom, ModuleCodeView)>,
    k: Atom,
    i: int,
)
    requires
        distinct_names(tbl),
        modules_ok(tbl.len(), ms),
        k.0 < tbl.len(),
    ensures
        crate::types::assoc_index(abs_modules(tbl, ms), resolve_atom(tbl, k), i)
            == crate::types::assoc_index(ms, k, i),
    decreases ms.len() - i,
{
    if i < 0 || i >= ms.len() {
    } else {
        lemma_resolve_injective(tbl, ms[i].0, k);
        lemma_abs_index_modules(tbl, ms, k, i + 1);
    }
}

/// Replacing in the atom-level module table abstracts to replacing in the
/// name-level one.
proof fn lemma_abs_put_module(
    tbl: Seq<Seq<char>>,
    ms: Seq<(Atom, ModuleCodeView)>,
    k: Atom,
    c: ModuleCodeView,
)
    requires
        distinct_names(tbl),
        modules_ok(tbl.len(), ms),
        k.0 < tbl.len(),
    ensures
        abs_modules(tbl, assoc_put(ms, k, c)) == assoc_put(
            abs_modules(tbl, ms),
            resolve_atom(tbl, k),
            abs_code(tbl, k, c),
        ),
{
    lemma_abs_index_modules(tbl, ms, k, 0);
    let i = crate::types::assoc_index(ms, k, 0);
    if i < 0 {
        assert(abs_modules(tbl, ms.push((k, c))) =~= abs_modules(tbl, ms).push(
            (resolve_atom(tbl, k), abs_code(tbl, k, c)),
        ));
    } else {
        crate::types::lemma_assoc_index_found(ms, k, 0);
        assert(ms[i].0 == k);
        assert(abs_modules(tbl, ms.update(i, (k, c))) =~= abs_modules(tbl, ms).update(
            i,
            (resolve_atom(tbl, k), abs_code(tbl, k, c)),
        ));
    }
}

/// `modules_ok` is kept by replacement with a valid key and code.
proof fn lemma_modules_ok_put(n: nat, ms: Seq<(Atom, ModuleCodeView)>, k: Atom, c: ModuleCodeView)
    requires
        modules_ok(n, ms),
        k.0 < n,
        code_ok(n, c),
    ensures
        modules_ok(n, assoc_put(ms, k, c)),
{
    let i = crate::types::assoc_index(ms, k, 0);
    if i >= 0 {
        crate::types::lemma_assoc_index_found(ms, k, 0);
    }
}

/// The counterpart of `lemma_abs_index_modules` for the application table.
proof fn lemma_abs_index_apps(tbl: Seq<Seq<char>>, s: Seq<(Atom, AppView)>, k: Atom, i: int)
    requires
        distinct_names(tbl),
        apps_ok(tbl.len(), s),
        k.0 < tbl.len(),
    ensures
        crate::types::assoc_index(abs_apps(tbl, s), resolve_atom(tbl, k), i)
            == crate::types::assoc_index(s, k, i),
    decreases s.len() - i,
{
    if i < 0 || i >= s.len() {
    } else {
        lemma_resolve_injective(tbl, s[i].0, k);
        lemma_abs_index_apps(tbl, s, k, i + 1);
    }
}

/// The counterpart of `lemma_abs_put_module` for the application table.
proof fn lemma_abs_put_app(tbl: Seq<Seq<char>>, s: Seq<(Atom, AppView)>, k: Atom, a: AppView)
    requires
        distinct_names(tbl),
        apps_ok(tbl.len(), s),
        k.0 < tbl.len(),
    ensures
        abs_apps(tbl, assoc_put(s, k, a)) == assoc_put(
            abs_apps(tbl, s),
            resolve_atom(tbl, k),
            abs_app(tbl, a),
        ),
{
    lemma_abs_index_apps(tbl, s, k, 0);
    let i = crate::types::assoc_index(s, k, 0);
    if i < 0 {
        assert(abs_apps(tbl, s.push((k, a))) =~= abs_apps(tbl, s).push(
            (resolve_atom(tbl, k), abs_app(tbl, a)),
        ));
    } else {
        crate::types::lemma_assoc_index_found(s, k, 0);
        assert(abs_apps(tbl, s.update(i, (k, a))) =~= abs_apps(tbl, s).update(
            i,
            (resolve_atom(tbl, k), abs_app(tbl, a)),
        ));
    }
}

/// `apps_ok` is kept by replacement with a valid key and application.
proof fn lemma_apps_ok_put(n: nat, s: Seq<(Atom, AppView)>, k: Atom, a: AppView)
    requires
        apps_ok(n, s),
        k.0 < n,
        app_ok(n, a),
    ensures
        apps_ok(n, assoc_put(s, k, a)),
{
    let i = crate::types::assoc_index(s, k, 0);
    if i >= 0 {
        crate::types::lemma_assoc_index_found(s, k, 0);
    }
}

/// Character-wise string equality.
fn str_eq(a: &str, b: &str) -> (r: bool)
    ensures
        r == (a@ == b@),
{
    let x: String = a.to_owned();
    let y: String = b.to_owned();
    x == y
}

/// The position of the file name's last dot, a leading dot not counting.
fn find_last_dot(name: &str) -> (r: Option<usize>)
    ensures
        r matches Some(d) ==> 1 <= d < name@.len() && d as int == last_dot_from(
            name@,
            name@.len() - 1,
        ),
        r is None ==> last_dot_from(name@, name@.len() - 1) < 0,
{
    let ghost nv = name@;
    let n = name.unicode_len();
    let mut i = n;
    while i > 1
        invariant
            i <= n,
            n == nv.len(),
            nv == name@,
            last_dot_from(nv, nv.len() - 1) == last_dot_from(nv, i as int - 1),
        decreases i,
    {
        if name.get_char(i - 1) == '.' {
            return Some(i - 1);
        }
        i = i - 1;
    }
    None
}

/// How the loader treats this file name (see `classify_name`).
fn classify(name: &str) -> (k: FileKind)
    ensures
        k == classify_name(name@),
{
    match find_last_dot(name) {
        None => FileKind::Ignored,
        Some(d) => {
            let n = name.unicode_len();
            let ext = name.substring_char(d + 1, n);
            proof {
                assert(ext@ =~= name@.skip(d + 1));
            }
            if str_eq(ext, "beam") {
                FileKind::Module
            } else if str_eq(ext, "app") {
                FileKind::Descriptor
            } else if str_eq(ext, "appup") || str_eq(ext, "hrl") || str_eq(ext, "am") {
                FileKind::Ignored
            } else {
                FileKind::Unexpected
            }
        },
    }
}

/// The file name minus its extension (see `stem_of`).
fn file_stem(name: &str) -> (r: String)
    ensures
        r@ == stem_of(name@),
{
    match find_last_dot(name) {
        None => name.to_owned(),
        Some(d) => {
            let s = name.substring_char(0, d);
            proof {
                assert(s@ =~= name@.take(d as int));
            }
            s.to_owned()
        },
    }
}

/// The display path of a file inside a directory.
fn join_path(dir: &String, name: &String) -> (r: String)
    ensures
        r@ == joined_path(dir@, name@),
{
    let mut s = dir.clone();
    s.append("/");
    s.append(name.as_str());
    s
}

/// Being a prefix is transitive.
proof fn lemma_prefix_trans(a: Seq<Seq<char>>, b: Seq<Seq<char>>, c: Seq<Seq<char>>)
    requires
        a.is_prefix_of(b),
        b.is_prefix_of(c),
    ensures
        a.is_prefix_of(c),
{
    lemma_prefix_index(a, b);
    lemma_prefix_index(b, c);
    assert(a =~= c.subrange(0, a.len() as int));
}

/// Intern a list of names, in order.
fn intern_atoms(interner: &mut Interner, names: &Vec<String>) -> (r: Vec<Atom>)
    requires
        old(interner).wf(),
    ensures
        final(interner).wf(),
        old(interner)@.is_prefix_of(final(interner)@),
        atoms_ok(final(interner)@.len(), r@),
        abs_atoms(final(interner)@, r@) == names.deep_view(),
{
    let mut out: Vec<Atom> = Vec::new();
    let mut i: usize = 0;
    proof {
        assert(old(interner)@.is_prefix_of(interner@));
    }
    while i < names.len()
        invariant
            interner.wf(),
            old(interner)@.is_prefix_of(interner@),
            out.len() == i,
            i <= names.len(),
            forall|j: int|
                0 <= j < i ==> (#[trigger] out@[j]).0 < interner@.len() && interner@[out@[j].0
                    as int] == names.deep_view()[j],
        decreases names.len() - i,
    {
        let ghost pre = interner@;
        let a = interner.intern(names[i].as_str());
        proof {
            lemma_prefix_index(pre, interner@);
            lemma_prefix_trans(old(interner)@, pre, interner@);
            assert(names.deep_view()[i as int] == names@[i as int]@);
        }
        out.push(a);
        i += 1;
    }
    proof {
        assert(abs_atoms(interner@, out@) =~= names.deep_view());
    }
    out
}

/// Intern the function names of a (function, arity) list, in order.
fn intern_fa_list(interner: &mut Interner, fas: &Vec<(String, u32)>) -> (r: Vec<(Atom, u32)>)
    requires
        old(interner).wf(),
    ensures
        final(interner).wf(),
        old(interner)@.is_prefix_of(final(interner)@),
        fas_ok(final(interner)@.len(), r@),
        abs_falist(final(interner)@, r@) == fas.deep_view(),
{
    let mut out: Vec<(Atom, u32)> = Vec::new();
    let mut i: usize = 0;
    proof {
        assert(old(interner)@.is_prefix_of(interner@));
    }
    while i < fas.len()
        invariant
            interner.wf(),
            old(interner)@.is_prefix_of(interner@),
            out.len() == i,
            i <= fas.len(),
            forall|j: int|
                0 <= j < i ==> (#[trigger] out@[j]).0.0 < interner@.len() && (
                interner@[out@[j].0.0 as int], out@[j].1) == fas.deep_view()[j],
        decreases fas.len() - i,
    {
        let ghost pre = interner@;
        let a = interner.intern(fas[i].0.as_str());
        proof {
            lemma_prefix_index(pre, interner@);
            lemma_prefix_trans(old(interner)@, pre, interner@);
            assert(fas.deep_view()[i as int] == (fas@[i as int].0@, fas@[i as int].1));
        }
        out.push((a, fas[i].1));
        i += 1;
    }
    proof {
        assert(abs_falist(interner@, out@) =~= fas.deep_view());
    }
    out
}

/// Intern a whole grouped import list, in order.
fn intern_import_groups(interner: &mut Interner, groups: &Vec<(String, Vec<(String, u32)>)>) -> (r:
    Vec<(Atom, Vec<(Atom, u32)>)>)
    requires
        old(interner).wf(),
    ensures
        final(interner).wf(),
        old(interner)@.is_prefix_of(final(interner)@),
        imports_ok(final(interner)@.len(), r.deep_view()),
        abs_imports(final(interner)@, r.deep_view()) == groups.deep_view(),
{
    let mut out: Vec<(Atom, Vec<(Atom, u32)>)> = Vec::new();
    let mut i: usize = 0;
    proof {
        assert(old(interner)@.is_prefix_of(interner@));
    }
    while i < groups.len()
        invariant
            interner.wf(),
            old(interner)@.is_prefix_of(interner@),
            out.len() == i,
            i <= groups.len(),
            forall|j: int|
                0 <= j < i ==> (#[trigger] out.deep_view()[j]).0.0 < interner@.len() && fas_ok(
                    interner@.len(),
                    out.deep_view()[j].1,
                ) && (
                resolve_atom(interner@, out.deep_view()[j].0),
                abs_falist(interner@, out.deep_view()[j].1),
                ) == groups.deep_view()[j],
        decreases groups.len() - i,
    {
        let ghost pre = interner@;
        let m = interner.intern(groups[i].0.as_str());
        let fa = intern_fa_list(interner, &groups[i].1);
        let ghost pre_out = out;
        let ghost entry_snap_v = (m, fa.deep_view());
        out.push((m, fa));
        i += 1;
        proof {
            lemma_prefix_index(pre, interner@);
            lemma_prefix_trans(old(interner)@, pre, interner@);
            assert(out.deep_view() =~= pre_out.deep_view().push(entry_snap_v));
            assert(groups.deep_view()[i - 1] == (groups@[i - 1].0@, groups@[i - 1].1.deep_view()));
            assert forall|j: int| 0 <= j < i - 1 implies (#[trigger] out.deep_view()[j]).0.0
                < interner@.len() && fas_ok(interner@.len(), out.deep_view()[j].1) && (
            resolve_atom(interner@, out.deep_view()[j].0),
            abs_falist(interner@, out.deep_view()[j].1),
            ) == groups.deep_view()[j] by {
                assert(out.deep_view()[j] == pre_out.deep_view()[j]);
                assert(pre.is_prefix_of(interner@));
                lemma_abs_falist_stable(pre, interner@, out.deep_view()[j].1);
                lemma_resolve_stable(pre, interner@, out.deep_view()[j].0);
            }
        }
    }
    proof {
        assert(abs_imports(interner@, out.deep_view()) =~= groups.deep_view());
    }
    out
}

/// Intern everything a decoded module names, in structure order: its import
/// groups, its exports, then its own name.
fn intern_module(interner: &mut Interner, sm: &StringModule) -> (r: (Atom, ModuleCode))
    requires
        old(interner).wf(),
    ensures
        final(interner).wf(),
        old(interner)@.is_prefix_of(final(interner)@),
        r.0.0 < final(interner)@.len(),
        code_ok(final(interner)@.len(), r.1@),
        abs_code(final(interner)@, r.0, r.1@) == sm.names(),
{
    let ghost t0 = interner@;
    let imports = intern_import_groups(interner, &sm.imports);
    let ghost t1 = interner@;
    let exports = intern_fa_list(interner, &sm.exports);
    let ghost t2 = interner@;
    let name_atom = interner.intern(sm.name.as_str());
    let code = ModuleCode { imports, exports };
    proof {
        lemma_prefix_trans(t0, t1, t2);
        lemma_prefix_trans(t0, t2, interner@);
        lemma_prefix_trans(t1, t2, interner@);
        lemma_abs_imports_stable(t1, t2, code@.imports);
        lemma_abs_imports_stable(t1, interner@, code@.imports);
        assert(exports.deep_view() =~= exports@);
        assert(imports.deep_view() =~= code@.imports);
        lemma_abs_falist_stable(t2, interner@, code@.exports);
        assert(abs_code(interner@, name_atom, code@) =~~= sm.names());
    }
    (name_atom, code)
}

proof fn lemma_atoms_ok_grow(n1: nat, n2: nat, s: Seq<Atom>)
    requires
        n1 <= n2,
        atoms_ok(n1, s),
    ensures
        atoms_ok(n2, s),
{
}

proof fn lemma_fas_ok_grow(n1: nat, n2: nat, s: Seq<(Atom, u32)>)
    requires
        n1 <= n2,
        fas_ok(n1, s),
    ensures
        fas_ok(n2, s),
{
}

proof fn lemma_imports_ok_grow(n1: nat, n2: nat, s: Seq<(Atom, Seq<(Atom, u32)>)>)
    requires
        n1 <= n2,
        imports_ok(n1, s),
    ensures
        imports_ok(n2, s),
{
    assert forall|i: int| 0 <= i < s.len() implies (#[trigger] s[i]).0.0 < n2 && fas_ok(
        n2,
        s[i].1,
    ) by {
        lemma_fas_ok_grow(n1, n2, s[i].1);
    }
}

proof fn lemma_code_ok_grow(n1: nat, n2: nat, c: ModuleCodeView)
    requires
        n1 <= n2,
        code_ok(n1, c),
    ensures
        code_ok(n2, c),
{
    lemma_imports_ok_grow(n1, n2, c.imports);
    lemma_fas_ok_grow(n1, n2, c.exports);
}

proof fn lemma_modules_ok_grow(n1: nat, n2: nat, ms: Seq<(Atom, ModuleCodeView)>)
    requires
        n1 <= n2,
        modules_ok(n1, ms),
    ensures
        modules_ok(n2, ms),
{
    assert forall|i: int| 0 <= i < ms.len() implies (#[trigger] ms[i]).0.0 < n2 && code_ok(
        n2,
        ms[i].1,
    ) by {
        lemma_code_ok_grow(n1, n2, ms[i].1);
    }
}

proof fn lemma_apps_ok_grow(n1: nat, n2: nat, s: Seq<(Atom, AppView)>)
    requires
        n1 <= n2,
        apps_ok(n1, s),
    ensures
        apps_ok(n2, s),
{
    assert forall|i: int| 0 <= i < s.len() implies (#[trigger] s[i]).0.0 < n2 && app_ok(
        n2,
        s[i].1,
    ) by {
        lemma_atoms_ok_grow(n1, n2, s[i].1.deps);
        lemma_atoms_ok_grow(n1, n2, s[i].1.modules);
    }
}

/// A failure on a prefix of the files fails the whole directory with the
/// same error.
proof fn lemma_app_files_err(dir: Seq<char>, files: Seq<FileEntryView>, i: int)
    requires
        0 <= i <= files.len(),
        spec_app_files(dir, files.take(i)) is Err,
    ensures
        spec_app_files(dir, files) == spec_app_files(dir, files.take(i)),
    decreases files.len() - i,
{
    if i == files.len() {
        assert(files.take(i) =~= files);
    } else {
        assert(files.take(i + 1).drop_last() =~= files.take(i));
        lemma_app_files_err(dir, files, i + 1);
    }
}

/// The folded outcome of a directory's files, where no file has failed.
pub open spec fn app_st(dir: AppDirView, i: int) -> (
    Option<(Seq<char>, Seq<Seq<char>>)>,
    Seq<ModuleNames>,
)
    recommends
        spec_app_files(dir.path, dir.files.take(i)) is Ok,
{
    spec_app_files(dir.path, dir.files.take(i))->Ok_0
}

/// Loading a concatenation loads the first part, then the second onto its
/// outcome.
pub proof fn lemma_load_append(s0: SnapNames, d1: Seq<AppDirView>, d2: Seq<AppDirView>)
    ensures
        spec_load_from(s0, d1 + d2) == (match spec_load_from(s0, d1) {
            Err(e) => Err(e),
            Ok(s) => spec_load_from(s, d2),
        }),
    decreases d2.len(),
{
    if d2.len() == 0 {
        assert(d1 + d2 =~= d1);
    } else {
        assert((d1 + d2).drop_last() =~= d1 + d2.drop_last());
        lemma_load_append(s0, d1, d2.drop_last());
        assert((d1 + d2).last() == d2.last());
    }
}

/// A failure on a prefix of the directories fails the whole load with the
/// same error.
proof fn lemma_load_err_prefix(s0: SnapNames, dirs: Seq<AppDirView>, i: int)
    requires
        0 <= i <= dirs.len(),
        spec_load_from(s0, dirs.take(i)) is Err,
    ensures
        spec_load_from(s0, dirs) == spec_load_from(s0, dirs.take(i)),
    decreases dirs.len() - i,
{
    if i == dirs.len() {
        assert(dirs.take(i) =~= dirs);
    } else {
        assert(dirs.take(i + 1).drop_last() =~= dirs.take(i));
        lemma_load_err_prefix(s0, dirs, i + 1);
    }
}

/// The application directories of the roots from position `i` on.
pub open spec fn rest_dirs(roots: Seq<LibRootView>, i: int) -> Seq<AppDirView>
    decreases roots.len() - i,
{
    if i < 0 || i >= roots.len() {
        Seq::empty()
    } else {
        roots[i].apps + rest_dirs(roots, i + 1)
    }
}

/// The directories split at root `i`: those of the first `i` roots, then
/// the rest.
proof fn lemma_dirs_decomp(roots: Seq<LibRootView>, i: int)
    requires
        0 <= i <= roots.len(),
    ensures
        dirs_of_roots(roots) == dirs_of_roots(roots.take(i)) + rest_dirs(roots, i),
    decreases roots.len() - i,
{
    if i == roots.len() {
        assert(roots.take(i) =~= roots);
        assert(dirs_of_roots(roots) + rest_dirs(roots, i) =~= dirs_of_roots(roots));
    } else {
        lemma_dirs_decomp(roots, i + 1);
        assert(roots.take(i + 1).drop_last() =~= roots.take(i));
        assert(roots.take(i + 1).last() == roots[i]);
        assert(dirs_of_roots(roots.take(i)) + (roots[i].apps + rest_dirs(roots, i + 1)) =~= (
        dirs_of_roots(roots.take(i)) + roots[i].apps) + rest_dirs(roots, i + 1));
    }
}

/// The dependency edges of the applications, as the graph is built: one
/// edge from each application's name to each of its declared dependencies.
pub open spec fn edges_of_deps(es: Set<(usize, usize)>, name: Atom, deps: Seq<Atom>) -> Set<
    (usize, usize),
>
    decreases deps.len(),
{
    if deps.len() == 0 {
        es
    } else {
        edges_of_deps(es, name, deps.drop_last()).insert((name.0, deps.last().0))
    }
}

/// The nodes the graph gains from one application: its own name and every
/// declared dependency.
pub open spec fn nodes_of_deps(ns: Set<usize>, name: Atom, deps: Seq<Atom>) -> Set<usize>
    decreases deps.len(),
{
    if deps.len() == 0 {
        ns
    } else {
        nodes_of_deps(ns, name, deps.drop_last()).insert(name.0).insert(deps.last().0)
    }
}

/// All dependency edges declared by the application table.
pub open spec fn spec_dep_edges(apps: Seq<(Atom, AppView)>) -> Set<(usize, usize)>
    decreases apps.len(),
{
    if apps.len() == 0 {
        Set::empty()
    } else {
        edges_of_deps(spec_dep_edges(apps.drop_last()), apps.last().1.name, apps.last().1.deps)
    }
}

/// All graph nodes: every loaded application and every declared dependency.
pub open spec fn spec_dep_nodes(apps: Seq<(Atom, AppView)>) -> Set<usize>
    decreases apps.len(),
{
    if apps.len() == 0 {
        Set::empty()
    } else {
        nodes_of_deps(
            spec_dep_nodes(apps.drop_last()).insert(apps.last().1.name.0),
            apps.last().1.name,
            apps.last().1.deps,
        )
    }
}

/// The loader: the shared symbol table and the snapshot tables under
/// construction. `read_libs` fills them; `finish` freezes the snapshot.
pub struct Loader {
    interner: Interner,
    modules: Modules,
    apps: Apps,
}

/// What loading one directory guarantees on success: the returned
/// application and the grown module table abstract to exactly what
/// `spec_read_app` names.
pub open spec fn read_app_ok(pre: Loader, post: Loader, dirv: AppDirView, app: AppView) -> bool {
    &&& spec_read_app(dirv) is Ok
    &&& {
        let al = spec_read_app(dirv)->Ok_0;
        let tbl = post.interner_view();
        &&& app.name.0 < tbl.len()
        &&& atoms_ok(tbl.len(), app.deps)
        &&& atoms_ok(tbl.len(), app.modules)
        &&& resolve_atom(tbl, app.name) == al.name
        &&& abs_atoms(tbl, app.deps) == al.deps
        &&& abs_atoms(tbl, app.modules) == al.modules.map_values(|m: ModuleNames| m.name)
        &&& abs_modules(tbl, post.modules_view()) == put_modules(
            abs_modules(pre.interner_view(), pre.modules_view()),
            al.modules,
        )
    }
}

impl Loader {
    /// The interner's table.
    pub closed spec fn interner_view(&self) -> Seq<Seq<char>> {
        self.interner@
    }

    /// The module symbol table, at the atom level.
    pub closed spec fn modules_view(&self) -> Seq<(Atom, ModuleCodeView)> {
        self.modules@
    }

    /// The application table, at the atom level.
    pub closed spec fn apps_view(&self) -> Seq<(Atom, AppView)> {
        self.apps@
    }

    /// Well-formed: distinct interned names, and every atom the tables hold
    /// was produced by the interner.
    pub open spec fn wf(&self) -> bool {
        &&& distinct_names(self.interner_view())
        &&& modules_ok(self.interner_view().len(), self.modules_view())
        &&& apps_ok(self.interner_view().len(), self.apps_view())
    }

    /// The state the loader has built, at the level of names.
    pub open spec fn abs_state(&self) -> SnapNames {
        SnapNames {
            modules: abs_modules(self.interner_view(), self.modules_view()),
            apps: abs_apps(self.interner_view(), self.apps_view()),
        }
    }

    pub fn new() -> (r: Loader)
        ensures
            r.wf(),
            r.abs_state() == snap_empty(),
    {
        let r = Loader { interner: Interner::new(), modules: Modules::new(), apps: Apps::new() };
        proof {
            assert(r.abs_state().modules =~= snap_empty().modules);
            assert(r.abs_state().apps =~= snap_empty().apps);
            assert(r.abs_state() =~~= snap_empty());
        }
        r
    }


    /// Decode-side merge of one module: intern what it names and insert it
    /// into the module symbol table under its name atom.
    fn load_module(&mut self, sm: &StringModule) -> (m: Atom)
        requires
            old(self).wf(),
        ensures
            final(self).wf(),
            old(self).interner_view().is_prefix_of(final(self).interner_view()),
            final(self).apps_view() == old(self).apps_view(),
            m.0 < final(self).interner_view().len(),
            resolve_atom(final(self).interner_view(), m) == sm.names().name,
            abs_modules(final(self).interner_view(), final(self).modules_view()) == assoc_put(
                abs_modules(old(self).interner_view(), old(self).modules_view()),
                sm.names().name,
                sm.names(),
            ),
    {
        let ghost pre_i = self.interner_view();
        let ghost pre_mv = self.modules_view();
        let (m, code) = intern_module(&mut self.interner, sm);
        let ghost cur = self.interner_view();
        let ghost code_v = code@;
        self.modules.insert(m, code);
        proof {
            lemma_modules_ok_grow(pre_i.len(), cur.len(), pre_mv);
            lemma_modules_ok_put(cur.len(), pre_mv, m, code_v);
            lemma_apps_ok_grow(pre_i.len(), cur.len(), self.apps_view());
            assert(self.wf());
            lemma_abs_modules_stable(pre_i, cur, pre_mv);
            lemma_abs_put_module(cur, pre_mv, m, code_v);
            assert(abs_code(cur, m, code_v) == sm.names());
        }
        m
    }

    /// Decode-side merge of one descriptor: intern the dependency names the
    /// heuristic extracted from its text, then the application name (the
    /// descriptor file's stem).
    fn load_descriptor(&mut self, fname: &String, text: &String) -> (r: (Atom, Vec<Atom>))
        requires
            old(self).wf(),
        ensures
            final(self).wf(),
            old(self).interner_view().is_prefix_of(final(self).interner_view()),
            final(self).apps_view() == old(self).apps_view(),
            final(self).modules_view() == old(self).modules_view(),
            abs_modules(final(self).interner_view(), final(self).modules_view()) == abs_modules(
                old(self).interner_view(),
                old(self).modules_view(),
            ),
            r.0.0 < final(self).interner_view().len(),
            atoms_ok(final(self).interner_view().len(), r.1@),
            resolve_atom(final(self).interner_view(), r.0) == stem_of(fname@),
            abs_atoms(final(self).interner_view(), r.1@) == dep_names_of(text@),
    {
        let ghost pre_i = self.interner_view();
        let deps = extract_dep_names(text.as_str());
        let datoms = intern_atoms(&mut self.interner, &deps);
        let ghost mid = self.interner_view();
        let stem = file_stem(fname.as_str());
        let name_atom = self.interner.intern(stem.as_str());
        let ghost cur = self.interner_view();
        let ghost datoms_snap = datoms@;
        proof {
            lemma_prefix_trans(pre_i, mid, cur);
            lemma_modules_ok_grow(pre_i.len(), cur.len(), self.modules_view());
            lemma_apps_ok_grow(pre_i.len(), cur.len(), self.apps_view());
            assert(self.wf());
            lemma_abs_modules_stable(pre_i, cur, self.modules_view());
            lemma_atoms_ok_grow(mid.len(), cur.len(), datoms_snap);
            lemma_abs_atoms_stable(mid, cur, datoms_snap);
        }
        (name_atom, datoms)
    }

    /// Load one application directory: decode and intern each file in
    /// order, merging modules into the symbol table as they decode; the
    /// application table is left to the caller.
    #[verifier::rlimit(100)]
    fn read_app(&mut self, dir: &AppDir) -> (r: Result<App, LoadError>)
        requires
            old(self).wf(),
        ensures
            final(self).wf(),
            old(self).interner_view().is_prefix_of(final(self).interner_view()),
            final(self).apps_view() == old(self).apps_view(),
            r matches Err(e) ==> spec_read_app(dir@) == Err::<AppLoad, LoadErrNames>(e@),
            r matches Ok(app) ==> read_app_ok(*old(self), *final(self), dir@, app@),
    {
        let ghost dv = dir@;
        let ghost m0 = abs_modules(old(self).interner_view(), old(self).modules_view());
        let mut name_deps: Option<(Atom, Vec<Atom>)> = None;
        let mut app_modules: Vec<Atom> = Vec::new();
        let mut i: usize = 0;
        proof {
            assert(dv.files.take(0) =~= Seq::<FileEntryView>::empty());
            assert(old(self).interner_view().is_prefix_of(self.interner_view()));
            assert(m0 == put_modules(m0, app_st(dv, 0).1));
        }
        while i < dir.files.len()
            invariant
                self.wf(),
                dv == dir@,
                i <= dv.files.len(),
                old(self).interner_view().is_prefix_of(self.interner_view()),
                old(self).wf(),
                self.apps_view() == old(self).apps_view(),
                m0 == abs_modules(old(self).interner_view(), old(self).modules_view()),
                spec_app_files(dv.path, dv.files.take(i as int)) is Ok,
                abs_modules(self.interner_view(), self.modules_view()) == put_modules(
                    m0,
                    app_st(dv, i as int).1,
                ),
                atoms_ok(self.interner_view().len(), app_modules@),
                abs_atoms(self.interner_view(), app_modules@) == app_st(
                    dv,
                    i as int,
                ).1.map_values(|m: ModuleNames| m.name),
                match name_deps {
                    None => app_st(dv, i as int).0 is None,
                    Some(nd) => app_st(dv, i as int).0 matches Some(sd) && nd.0.0
                        < self.interner_view().len() && atoms_ok(self.interner_view().len(), nd.1@)
                        && resolve_atom(self.interner_view(), nd.0) == sd.0 && abs_atoms(
                        self.interner_view(),
                        nd.1@,
                    ) == sd.1,
                },
            decreases dv.files.len() - i,
        {
            let ghost st = app_st(dv, i as int);
            let f = &dir.files[i];
            proof {
                assert(dv.files[i as int] == dir.files@[i as int].deep_view());
                assert(dv.files.take(i + 1).drop_last() =~= dv.files.take(i as int));
                assert(dv.files.take(i + 1).last() == dv.files[i as int]);
            }
            let kind = classify(f.name.as_str());
            match kind {
                FileKind::Ignored => {
                    proof {
                        assert(app_st(dv, i + 1) == st);
                    }
                },
                FileKind::Module => {
                    match parse_module(&f.bytes) {
                        Err(c) => {
                            let p = join_path(&dir.path, &f.name);
                            let e = LoadError::MalformedArtifact { path: p, cause: c };
                            proof {
                                assert(spec_app_files(dv.path, dv.files.take(i + 1))
                                    == Err::<(Option<(Seq<char>, Seq<Seq<char>>)>, Seq<ModuleNames>), LoadErrNames>(e@));
                                lemma_app_files_err(dv.path, dv.files, i + 1);
                            }
                            return Err(e);
                        },
                        Ok(sm) => {
                            let ghost mn = sm.names();
                            let ghost pre_i = self.interner_view();
                            let ghost pre_list = app_modules@;
                            let m = self.load_module(&sm);
                            let ghost cur = self.interner_view();
                            app_modules.push(m);
                            proof {
                                lemma_prefix_trans(old(self).interner_view(), pre_i, cur);
                                assert(app_st(dv, i + 1).1 =~= st.1.push(mn));
                                assert(st.1.push(mn).drop_last() =~= st.1);
                                assert(abs_modules(self.interner_view(), self.modules_view())
                                    == put_modules(m0, app_st(dv, i + 1).1));
                                lemma_atoms_ok_grow(pre_i.len(), cur.len(), pre_list);
                                lemma_abs_atoms_stable(pre_i, cur, pre_list);
                                assert(abs_atoms(cur, app_modules@) =~= abs_atoms(cur, pre_list)
                                    .push(resolve_atom(cur, m)));
                                assert(app_st(dv, i + 1).1.map_values(|mm: ModuleNames| mm.name)
                                    =~= st.1.map_values(|mm: ModuleNames| mm.name).push(mn.name));
                                match &name_deps {
                                    None => {},
                                    Some(nd) => {
                                        lemma_resolve_stable(pre_i, cur, nd.0);
                                        lemma_abs_atoms_stable(pre_i, cur, nd.1@);
                                        lemma_atoms_ok_grow(pre_i.len(), cur.len(), nd.1@);
                                    },
                                }
                            }
                        },
                    }
                },
                FileKind::Descriptor => {
                    let text = match bytes_to_string(&f.bytes) {
                        Some(t) => t,
                        None => {
                            let p = join_path(&dir.path, &f.name);
                            let e = LoadError::Io { path: p };
                            proof {
                                assert(spec_app_files(dv.path, dv.files.take(i + 1))
                                    == Err::<(Option<(Seq<char>, Seq<Seq<char>>)>, Seq<ModuleNames>), LoadErrNames>(e@));
                                lemma_app_files_err(dv.path, dv.files, i + 1);
                            }
                            return Err(e);
                        },
                    };
                    let ghost pre_i = self.interner_view();
                    let ghost pre_list = app_modules@;
                    let nd = self.load_descriptor(&f.name, &text);
                    let ghost cur = self.interner_view();
                    name_deps = Some(nd);
                    proof {
                        lemma_prefix_trans(old(self).interner_view(), pre_i, cur);
                        lemma_atoms_ok_grow(pre_i.len(), cur.len(), pre_list);
                        lemma_abs_atoms_stable(pre_i, cur, pre_list);
                        assert(app_st(dv, i + 1).0 == Some(
                            (stem_of(dv.files[i as int].name), dep_names_of(decode_utf8(
                                dv.files[i as int].bytes,
                            ))),
                        ));
                        assert(app_st(dv, i + 1).1 == st.1);
                    }
                },
                FileKind::Unexpected => {
                    let p = join_path(&dir.path, &f.name);
                    let e = LoadError::UnexpectedFile { path: p };
                    proof {
                        assert(spec_app_files(dv.path, dv.files.take(i + 1)) == Err::<
                            (Option<(Seq<char>, Seq<Seq<char>>)>, Seq<ModuleNames>),
                            LoadErrNames,
                        >(e@));
                        lemma_app_files_err(dv.path, dv.files, i + 1);
                    }
                    return Err(e);
                },
            }
            i += 1;
        }
        proof {
            assert(dv.files.take(dv.files.len() as int) =~= dv.files);
        }
        match name_deps {
            None => {
                let e = LoadError::MissingDescriptor { dir: dir.path.clone() };
                proof {
                    assert(spec_read_app(dv) == Err::<AppLoad, LoadErrNames>(e@));
                }
                Err(e)
            },
            Some(nd) => {
                let app = App { name: nd.0, deps: nd.1, modules: app_modules };
                proof {
                    assert(app@.deps =~= app.deps@);
                    assert(app@.modules =~= app.modules@);
                    assert(spec_read_app(dv) is Ok);
                }
                Ok(app)
            },
        }
    }

    /// Load every application directory of one library root, in order.
    fn read_root(&mut self, root: &LibRoot) -> (r: Result<(), LoadError>)
        requires
            old(self).wf(),
        ensures
            final(self).wf(),
            old(self).interner_view().is_prefix_of(final(self).interner_view()),
            r matches Ok(u) ==> spec_load_from(old(self).abs_state(), root@.apps) == Ok::<
                SnapNames,
                LoadErrNames,
            >(final(self).abs_state()),
            r matches Err(e) ==> spec_load_from(old(self).abs_state(), root@.apps) == Err::<
                SnapNames,
                LoadErrNames,
            >(e@),
    {
        let ghost s0 = old(self).abs_state();
        let ghost av = root@.apps;
        let mut j: usize = 0;
        proof {
            assert(av.take(0) =~= Seq::<AppDirView>::empty());
        }
        while j < root.apps.len()
            invariant
                self.wf(),
                old(self).wf(),
                av == root@.apps,
                j <= av.len(),
                s0 == old(self).abs_state(),
                old(self).interner_view().is_prefix_of(self.interner_view()),
                spec_load_from(s0, av.take(j as int)) == Ok::<SnapNames, LoadErrNames>(
                    self.abs_state(),
                ),
            decreases av.len() - j,
        {
            let d = &root.apps[j];
            let ghost pre = *self;
            proof {
                assert(av[j as int] == root.apps@[j as int].deep_view());
                assert(av.take(j + 1).drop_last() =~= av.take(j as int));
                assert(av.take(j + 1).last() == av[j as int]);
            }
            match self.read_app(d) {
                Err(e) => {
                    proof {
                        assert(spec_load_from(s0, av.take(j + 1)) == Err::<
                            SnapNames,
                            LoadErrNames,
                        >(e@));
                        lemma_load_err_prefix(s0, av, j + 1);
                        lemma_apps_ok_grow(
                            pre.interner_view().len(),
                            self.interner_view().len(),
                            self.apps_view(),
                        );
                        lemma_prefix_trans(
                            old(self).interner_view(),
                            pre.interner_view(),
                            self.interner_view(),
                        );
                    }
                    return Err(e);
                },
                Ok(app) => {
                    let ghost al = spec_read_app(av[j as int])->Ok_0;
                    let ghost tbl = self.interner_view();
                    let ghost pre_apps = self.apps_view();
                    let ghost app_v = app@;
                    self.apps.insert(app);
                    proof {
                        lemma_prefix_trans(
                            old(self).interner_view(),
                            pre.interner_view(),
                            tbl,
                        );
                        lemma_apps_ok_grow(pre.interner_view().len(), tbl.len(), pre_apps);
                        lemma_apps_ok_put(tbl.len(), pre_apps, app_v.name, app_v);
                        assert(self.wf());
                        lemma_abs_apps_stable(pre.interner_view(), tbl, pre_apps);
                        lemma_abs_put_app(tbl, pre_apps, app_v.name, app_v);
                        assert(abs_app(tbl, app_v) =~~= AppNames {
                            name: al.name,
                            deps: al.deps,
                            modules: al.modules.map_values(|m: ModuleNames| m.name),
                        });
                        assert(self.abs_state() =~~= snap_add_app(pre.abs_state(), al));
                        assert(spec_load_from(s0, av.take(j + 1)) == Ok::<
                            SnapNames,
                            LoadErrNames,
                        >(self.abs_state()));
                    }
                },
            }
            j += 1;
        }
        proof {
            assert(av.take(av.len() as int) =~= av);
        }
        Ok(())
    }

    /// Load every application directory of every library root, in
    /// iteration order; the first failure aborts the whole load.
    pub fn read_libs(&mut self, roots: &Vec<LibRoot>) -> (r: Result<(), LoadError>)
        requires
            old(self).wf(),
        ensures
            final(self).wf(),
            old(self).interner_view().is_prefix_of(final(self).interner_view()),
            r matches Ok(u) ==> spec_load_from(
                old(self).abs_state(),
                dirs_of_roots(roots.deep_view()),
            ) == Ok::<SnapNames, LoadErrNames>(final(self).abs_state()),
            r matches Err(e) ==> spec_load_from(
                old(self).abs_state(),
                dirs_of_roots(roots.deep_view()),
            ) == Err::<SnapNames, LoadErrNames>(e@),
    {
        let ghost s0 = old(self).abs_state();
        let ghost rv = roots.deep_view();
        let mut i: usize = 0;
        proof {
            assert(rv.take(0) =~= Seq::<LibRootView>::empty());
        }
        while i < roots.len()
            invariant
                self.wf(),
                old(self).wf(),
                rv == roots.deep_view(),
                i <= rv.len(),
                s0 == old(self).abs_state(),
                old(self).interner_view().is_prefix_of(self.interner_view()),
                spec_load_from(s0, dirs_of_roots(rv.take(i as int))) == Ok::<
                    SnapNames,
                    LoadErrNames,
                >(self.abs_state()),
            decreases rv.len() - i,
        {
            let ghost pre_abs = self.abs_state();
            proof {
                assert(rv[i as int] == roots@[i as int].deep_view());
                assert(rv.take(i + 1).drop_last() =~= rv.take(i as int));
                assert(rv.take(i + 1).last() == rv[i as int]);
            }
            match self.read_root(&roots[i]) {
                Err(e) => {
                    proof {
                        lemma_dirs_decomp(rv, i as int);
                        assert(rest_dirs(rv, i as int) == rv[i as int].apps + rest_dirs(
                            rv,
                            i + 1,
                        ));
                        assert(dirs_of_roots(rv) =~= (dirs_of_roots(rv.take(i as int)) + rv[i
                            as int].apps) + rest_dirs(rv, i + 1));
                        lemma_load_append(
                            s0,
                            dirs_of_roots(rv.take(i as int)) + rv[i as int].apps,
                            rest_dirs(rv, i + 1),
                        );
                        lemma_load_append(s0, dirs_of_roots(rv.take(i as int)), rv[i as int].apps);
                        assert(spec_load_from(s0, dirs_of_roots(rv)) == Err::<
                            SnapNames,
                            LoadErrNames,
                        >(e@));
                    }
                    return Err(e);
                },
                Ok(u) => {
                    proof {
                        assert(dirs_of_roots(rv.take(i + 1)) == dirs_of_roots(rv.take(i as int))
                            + rv[i as int].apps);
                        lemma_load_append(s0, dirs_of_roots(rv.take(i as int)), rv[i as int].apps);
                        assert(spec_load_from(s0, dirs_of_roots(rv.take(i + 1))) == Ok::<
                            SnapNames,
                            LoadErrNames,
                        >(self.abs_state()));
                    }
                },
            }
            i += 1;
        }
        proof {
            assert(rv.take(rv.len() as int) =~= rv);
        }
        Ok(())
    }

    /// Freeze the snapshot: hand back the interner and the tables, and
    /// build the application dependency graph from the declared
    /// dependencies of the loaded applications.
    pub fn finish(self) -> (r: (Interner, Modules, Apps, AppDeps))
        ensures
            r.0@ == self.interner_view(),
            r.1@ == self.modules_view(),
            r.2@ == self.apps_view(),
            graph_edges(r.3) == spec_dep_edges(self.apps_view()),
            graph_nodes(r.3) == spec_dep_nodes(self.apps_view()),
    {
        let ghost av = self.apps_view();
        let mut g = graph_new();
        let mut i: usize = 0;
        proof {
            assert(av.take(0) =~= Seq::<(Atom, AppView)>::empty());
        }
        while i < self.apps.len()
            invariant
                av == self.apps_view(),
                i <= av.len(),
                graph_edges(g) == spec_dep_edges(av.take(i as int)),
                graph_nodes(g) == spec_dep_nodes(av.take(i as int)),
            decreases av.len() - i,
        {
            let app = self.apps.at(i);
            let name = app.name;
            graph_add_node(&mut g, name.0);
            let ghost dv = app@.deps;
            let ghost es0 = graph_edges(g);
            let ghost ns0 = graph_nodes(g);
            let mut j: usize = 0;
            proof {
                assert(dv.take(0) =~= Seq::<Atom>::empty());
            }
            while j < app.deps.len()
                invariant
                    app@ == av[i as int].1,
                    i < av.len(),
                    av == self.apps_view(),
                    name == app.name,
                    dv == app@.deps,
                    j <= dv.len(),
                    graph_edges(g) == edges_of_deps(es0, name, dv.take(j as int)),
                    graph_nodes(g) == nodes_of_deps(ns0, name, dv.take(j as int)),
                decreases dv.len() - j,
            {
                let d = app.deps[j];
                graph_add_edge(&mut g, name.0, d.0);
                j += 1;
                proof {
                    assert(dv.take(j as int).drop_last() =~= dv.take(j - 1));
                    assert(dv.take(j as int).last() == dv[j - 1]);
                }
            }
            i += 1;
            proof {
                assert(dv.take(app.deps.len() as int) =~= dv);
                assert(av.take(i as int).drop_last() =~= av.take(i - 1));
                assert(av.take(i as int).last() == av[i - 1]);
            }
        }
        proof {
            assert(av.take(av.len() as int) =~= av);
        }
        (self.interner, self.modules, self.apps, g)
    }
}

/// An association list read as a map: each present key to its value.
pub open spec fn assoc_map<V>(s: Seq<(Seq<char>, V)>) -> Map<Seq<char>, V> {
    Map::new(
        |k: Seq<char>| crate::types::assoc_get(s, k) is Some,
        |k: Seq<char>| crate::types::assoc_get(s, k)->Some_0,
    )
}

proof fn lemma_assoc_index_push<V>(s: Seq<(Seq<char>, V)>, e: (Seq<char>, V), k: Seq<char>, i: int)
    requires
        0 <= i <= s.len(),
    ensures
        crate::types::assoc_index(s.push(e), k, i) == (if crate::types::assoc_index(s, k, i)
            >= 0 {
            crate::types::assoc_index(s, k, i)
        } else if e.0 == k {
            s.len() as int
        } else {
            -1
        }),
    decreases s.len() - i,
{
    if i == s.len() {
        assert(s.push(e)[i] == e);
        if e.0 != k {
            assert(crate::types::assoc_index(s.push(e), k, i + 1) == -1);
        }
    } else {
        assert(s.push(e)[i] == s[i]);
        lemma_assoc_index_push(s, e, k, i + 1);
    }
}

proof fn lemma_assoc_index_update_val<V>(s: Seq<(Seq<char>, V)>, i0: int, v: V, k: Seq<char>, i: int)
    requires
        0 <= i0 < s.len(),
        0 <= i,
    ensures
        crate::types::assoc_index(s.update(i0, (s[i0].0, v)), k, i) == crate::types::assoc_index(
            s,
            k,
            i,
        ),
    decreases s.len() - i,
{
    if i >= s.len() {
    } else {
        assert(s.update(i0, (s[i0].0, v))[i].0 == s[i].0);
        lemma_assoc_index_update_val(s, i0, v, k, i + 1);
    }
}

/// What a replacement does to lookups: the stored key reads the new value,
/// every other key is untouched.
proof fn lemma_assoc_put_get<V>(s: Seq<(Seq<char>, V)>, k: Seq<char>, v: V, k2: Seq<char>)
    ensures
        crate::types::assoc_get(assoc_put(s, k, v), k2) == (if k2 == k {
            Some(v)
        } else {
            crate::types::assoc_get(s, k2)
        }),
{
    let i = crate::types::assoc_index(s, k, 0);
    crate::types::lemma_assoc_index_found(s, k, 0);
    if i < 0 {
        lemma_assoc_index_push(s, (k, v), k2, 0);
        crate::types::lemma_assoc_index_found(s, k2, 0);
        crate::types::lemma_assoc_index_found(s.push((k, v)), k2, 0);
    } else {
        lemma_assoc_index_update_val(s, i, v, k2, 0);
        crate::types::lemma_assoc_index_found(s, k2, 0);
        crate::types::lemma_assoc_index_found(s.update(i, (k, v)), k2, 0);
        if k2 != k {
            let i2 = crate::types::assoc_index(s, k2, 0);
            if i2 >= 0 {
                assert(s[i2].0 == k2);
                assert(i2 != i);
                assert(s.update(i, (s[i].0, v))[i2] == s[i2]);
            }
        }
    }
}

/// Replacing in the association list is inserting in the map.
proof fn lemma_assoc_map_put<V>(s: Seq<(Seq<char>, V)>, k: Seq<char>, v: V)
    ensures
        assoc_map(assoc_put(s, k, v)) == assoc_map(s).insert(k, v),
{
    assert forall|k2: Seq<char>|
        #![all_triggers]
        true implies crate::types::assoc_get(assoc_put(s, k, v), k2) == (if k2 == k {
        Some(v)
    } else {
        crate::types::assoc_get(s, k2)
    }) by {
        lemma_assoc_put_get(s, k, v, k2);
    }
    assert(assoc_map(assoc_put(s, k, v)) =~= assoc_map(s).insert(k, v));
}

/// The module table as a map gains the given modules in order.
pub open spec fn map_put_modules(m: Map<Seq<char>, ModuleNames>, mods: Seq<ModuleNames>) -> Map<
    Seq<char>,
    ModuleNames,
>
    decreases mods.len(),
{
    if mods.len() == 0 {
        m
    } else {
        map_put_modules(m, mods.drop_last()).insert(mods.last().name, mods.last())
    }
}

/// The whole snapshot compared as maps: module name to module, application
/// name to application. Atom identities are run-local and play no part.
#[verifier::ext_equal]
pub struct SnapMaps {
    pub modules: Map<Seq<char>, ModuleNames>,
    pub apps: Map<Seq<char>, AppNames>,
}

pub open spec fn snap_maps(s: SnapNames) -> SnapMaps {
    SnapMaps { modules: assoc_map(s.modules), apps: assoc_map(s.apps) }
}

/// Merging one application, at the map level.
pub open spec fn map_add_app(sm: SnapMaps, al: AppLoad) -> SnapMaps {
    SnapMaps {
        modules: map_put_modules(sm.modules, al.modules),
        apps: sm.apps.insert(al.name, app_names_of(al)),
    }
}

proof fn lemma_put_modules_maps(ms: Seq<(Seq<char>, ModuleNames)>, mods: Seq<ModuleNames>)
    ensures
        assoc_map(put_modules(ms, mods)) == map_put_modules(assoc_map(ms), mods),
    decreases mods.len(),
{
    if mods.len() == 0 {
    } else {
        lemma_put_modules_maps(ms, mods.drop_last());
        lemma_assoc_map_put(put_modules(ms, mods.drop_last()), mods.last().name, mods.last());
    }
}

/// Merging an application commutes with reading the snapshot as maps.
proof fn lemma_snap_add_app_maps(s: SnapNames, al: AppLoad)
    ensures
        snap_maps(snap_add_app(s, al)) == map_add_app(snap_maps(s), al),
{
    lemma_put_modules_maps(s.modules, al.modules);
    lemma_assoc_map_put(s.apps, al.name, app_names_of(al));
    assert(snap_maps(snap_add_app(s, al)) =~~= map_add_app(snap_maps(s), al));
}

/// What loading a directory yields, where it loads.
#[verifier::opaque]
pub open spec fn al_of(d: AppDirView) -> AppLoad {
    spec_read_app(d)->Ok_0
}

/// Every directory loads.
pub open spec fn all_ok(dirs: Seq<AppDirView>) -> bool {
    forall|i: int| 0 <= i < dirs.len() ==> spec_read_app(#[trigger] dirs[i]) is Ok
}

/// Loading directories that all load, at the map level.
pub open spec fn map_load_from(sm: SnapMaps, dirs: Seq<AppDirView>) -> SnapMaps
    decreases dirs.len(),
{
    if dirs.len() == 0 {
        sm
    } else {
        map_add_app(map_load_from(sm, dirs.drop_last()), al_of(dirs.last()))
    }
}

/// When every directory loads, the whole load succeeds and, read as maps,
/// equals the map-level load.
pub proof fn lemma_load_all_ok(s0: SnapNames, dirs: Seq<AppDirView>)
    requires
        all_ok(dirs),
    ensures
        spec_load_from(s0, dirs) is Ok,
        snap_maps(spec_load_from(s0, dirs)->Ok_0) == map_load_from(snap_maps(s0), dirs),
    decreases dirs.len(),
{
    reveal(al_of);
    if dirs.len() == 0 {
    } else {
        assert(all_ok(dirs.drop_last())) by {
            assert(forall|i: int|
                0 <= i < dirs.len() - 1 ==> dirs.drop_last()[i] == #[trigger] dirs[i]);
        }
        lemma_load_all_ok(s0, dirs.drop_last());
        assert(dirs[dirs.len() - 1] == dirs.last());
        lemma_snap_add_app_maps(spec_load_from(s0, dirs.drop_last())->Ok_0, al_of(dirs.last()));
    }
}

proof fn lemma_map_insert_comm<V>(m: Map<Seq<char>, V>, k1: Seq<char>, v1: V, k2: Seq<char>, v2: V)
    requires
        k1 != k2,
    ensures
        m.insert(k1, v1).insert(k2, v2) == m.insert(k2, v2).insert(k1, v1),
{
    assert(m.insert(k1, v1).insert(k2, v2) =~= m.insert(k2, v2).insert(k1, v1));
}

/// Some module in the list carries this name.
pub open spec fn mods_have_name(mods: Seq<ModuleNames>, k: Seq<char>) -> bool {
    exists|i: int| 0 <= i < mods.len() && (#[trigger] mods[i]).name == k
}

proof fn lemma_insert_put_modules_comm(
    m: Map<Seq<char>, ModuleNames>,
    mods: Seq<ModuleNames>,
    k: Seq<char>,
    v: ModuleNames,
)
    requires
        !mods_have_name(mods, k),
    ensures
        map_put_modules(m.insert(k, v), mods) == map_put_modules(m, mods).insert(k, v),
    decreases mods.len(),
{
    if mods.len() == 0 {
    } else {
        assert(!mods_have_name(mods.drop_last(), k)) by {
            assert(forall|i: int|
                0 <= i < mods.len() - 1 ==> mods.drop_last()[i] == #[trigger] mods[i]);
        }
        lemma_insert_put_modules_comm(m, mods.drop_last(), k, v);
        assert(mods[mods.len() - 1] == mods.last());
        assert(mods.last().name != k);
        lemma_map_insert_comm(
            map_put_modules(m, mods.drop_last()),
            k,
            v,
            mods.last().name,
            mods.last(),
        );
    }
}

/// No name is carried by a module of both lists.
pub open spec fn mods_disjoint(a: Seq<ModuleNames>, b: Seq<ModuleNames>) -> bool {
    forall|i: int, j: int|
        0 <= i < a.len() && 0 <= j < b.len() ==> (#[trigger] a[i]).name != (#[trigger] b[j]).name
}

proof fn lemma_put_modules_comm(
    m: Map<Seq<char>, ModuleNames>,
    a: Seq<ModuleNames>,
    b: Seq<ModuleNames>,
)
    requires
        mods_disjoint(a, b),
    ensures
        map_put_modules(map_put_modules(m, a), b) == map_put_modules(map_put_modules(m, b), a),
    decreases b.len(),
{
    if b.len() == 0 {
    } else {
        assert(mods_disjoint(a, b.drop_last())) by {
            assert(forall|j: int| 0 <= j < b.len() - 1 ==> b.drop_last()[j] == #[trigger] b[j]);
        }
        lemma_put_modules_comm(m, a, b.drop_last());
        assert(b[b.len() - 1] == b.last());
        assert(!mods_have_name(a, b.last().name));
        lemma_insert_put_modules_comm(
            map_put_modules(m, b.drop_last()),
            a,
            b.last().name,
            b.last(),
        );
    }
}

/// Two loaded applications claim no key in common: distinct application
/// names and no shared module name.
pub open spec fn als_disjoint(a: AppLoad, b: AppLoad) -> bool {
    a.name != b.name && mods_disjoint(a.modules, b.modules)
}

proof fn lemma_map_add_app_comm(sm: SnapMaps, a: AppLoad, b: AppLoad)
    requires
        als_disjoint(a, b),
    ensures
        map_add_app(map_add_app(sm, a), b) == map_add_app(map_add_app(sm, b), a),
{
    lemma_put_modules_comm(sm.modules, a.modules, b.modules);
    lemma_map_insert_comm(sm.apps, a.name, app_names_of(a), b.name, app_names_of(b));
    assert(map_add_app(map_add_app(sm, a), b) =~~= map_add_app(map_add_app(sm, b), a));
}

/// The application claims no key that any of the directories claims.
pub open spec fn al_disjoint_all(a: AppLoad, dirs: Seq<AppDirView>) -> bool {
    forall|i: int| 0 <= i < dirs.len() ==> als_disjoint(a, al_of(#[trigger] dirs[i]))
}

proof fn lemma_add_app_load_comm(sm: SnapMaps, a: AppLoad, dirs: Seq<AppDirView>)
    requires
        al_disjoint_all(a, dirs),
    ensures
        map_load_from(map_add_app(sm, a), dirs) == map_add_app(map_load_from(sm, dirs), a),
    decreases dirs.len(),
{
    if dirs.len() == 0 {
    } else {
        assert(al_disjoint_all(a, dirs.drop_last())) by {
            assert(forall|i: int|
                0 <= i < dirs.len() - 1 ==> dirs.drop_last()[i] == #[trigger] dirs[i]);
        }
        lemma_add_app_load_comm(sm, a, dirs.drop_last());
        assert(dirs[dirs.len() - 1] == dirs.last());
        lemma_map_add_app_comm(map_load_from(sm, dirs.drop_last()), a, al_of(dirs.last()));
    }
}

proof fn lemma_map_load_append(sm: SnapMaps, d1: Seq<AppDirView>, d2: Seq<AppDirView>)
    ensures
        map_load_from(sm, d1 + d2) == map_load_from(map_load_from(sm, d1), d2),
    decreases d2.len(),
{
    if d2.len() == 0 {
        assert(d1 + d2 =~= d1);
    } else {
        assert((d1 + d2).drop_last() =~= d1 + d2.drop_last());
        lemma_map_load_append(sm, d1, d2.drop_last());
        assert((d1 + d2).last() == d2.last());
    }
}

/// No two directories claim a key in common.
pub open spec fn dirs_disjoint(dirs: Seq<AppDirView>) -> bool {
    forall|i: int, j: int|
        0 <= i < j < dirs.len() ==> als_disjoint(al_of(#[trigger] dirs[i]), al_of(
            #[trigger] dirs[j],
        ))
}

#[verifier::rlimit(100)]
proof fn lemma_map_load_reverse(sm: SnapMaps, dirs: Seq<AppDirView>)
    requires
        dirs_disjoint(dirs),
    ensures
        map_load_from(sm, dirs.reverse()) == map_load_from(sm, dirs),
    decreases dirs.len(),
{
    if dirs.len() == 0 {
        assert(dirs.reverse() =~= dirs);
    } else {
        let first = dirs.first();
        let rest = dirs.drop_first();
        assert(dirs.reverse().drop_last() =~= rest.reverse());
        assert(dirs.reverse().last() == first);
        assert(dirs_disjoint(rest)) by {
            assert(forall|i: int| 0 <= i < rest.len() ==> rest[i] == #[trigger] dirs[i + 1]);
        }
        lemma_map_load_reverse(sm, rest);
        assert(al_disjoint_all(al_of(first), rest)) by {
            assert forall|i: int| 0 <= i < rest.len() implies als_disjoint(
                al_of(first),
                al_of(#[trigger] rest[i]),
            ) by {
                assert(rest[i] == dirs[i + 1]);
                assert(als_disjoint(al_of(dirs[0]), al_of(dirs[i + 1])));
            }
        }
        lemma_add_app_load_comm(sm, al_of(first), rest);
        assert(dirs =~= seq![first] + rest);
        lemma_map_load_append(sm, seq![first], rest);
        assert(map_load_from(sm, seq![first]) == map_add_app(sm, al_of(first))) by {
            assert(seq![first].drop_last() =~= Seq::<AppDirView>::empty());
            assert(map_load_from(sm, Seq::<AppDirView>::empty()) == sm);
            assert(seq![first].last() == first);
        }
        assert(map_load_from(sm, dirs.reverse()) == map_add_app(
            map_load_from(sm, rest.reverse()),
            al_of(first),
        ));
        assert(map_load_from(sm, dirs) == map_load_from(map_add_app(sm, al_of(first)), rest));
    }
}

/// Law: loading the same application directories in reversed iteration
/// order yields an identical snapshot, compared as maps from names to
/// contents (atom identities are run-local and not compared), whenever
/// every directory loads and no application or module name is claimed by
/// two directories. On a name claimed twice the later write wins, so order
/// would matter there.
pub proof fn lemma_load_reversal(dirs: Seq<AppDirView>)
    requires
        all_ok(dirs),
        dirs_disjoint(dirs),
    ensures
        spec_load_from(snap_empty(), dirs) is Ok,
        spec_load_from(snap_empty(), dirs.reverse()) is Ok,
        snap_maps(spec_load_from(snap_empty(), dirs.reverse())->Ok_0) == snap_maps(
            spec_load_from(snap_empty(), dirs)->Ok_0,
        ),
{
    assert(all_ok(dirs.reverse())) by {
        assert(forall|i: int|
            0 <= i < dirs.len() ==> dirs.reverse()[i] == #[trigger] dirs[dirs.len() - 1 - i]);
    }
    lemma_load_all_ok(snap_empty(), dirs);
    lemma_load_all_ok(snap_empty(), dirs.reverse());
    lemma_map_load_reverse(snap_maps(snap_empty()), dirs);
}

} // verus!
