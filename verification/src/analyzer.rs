//! The static cross-reference analysis over a frozen snapshot.
//!
//! For every module in scope and every imported module it references, three
//! rules run: the imported module must exist; each referenced (function,
//! arity) pair must be exported by it (exact pair match); and the owning
//! applications must be connected in the dependency graph (any directed
//! path; intra-application references always pass).

use vstd::prelude::*;

use crate::graph::{graph_has_path, graph_edges, reachable, lemma_reachable_self, AppDeps};
use crate::types::{assoc_get, lemma_assoc_index_found, Apps, AppView, Atom, ModuleCodeView, Modules};

verus! {

/// One diagnostic, paired by the analysis with the referencing module.
#[derive(Clone, Copy, PartialEq, Eq, Structural, Debug)]
pub enum AnalysisResult {
    /// The imported module exists nowhere in the snapshot.
    MissingModule(Atom),
    /// The imported module exports no such (function, arity) pair.
    MissingFunction(Atom, Atom, u32),
    /// The owning applications are not connected by declared dependencies.
    MissingDependency { module: Atom, app_from: Atom, app_to: Atom },
}

/// Function-existence rule: one diagnostic for each reference absent from
/// the exports, in reference order.
pub open spec fn spec_missing_funs(
    module: Atom,
    imported: Atom,
    funs: Seq<(Atom, u32)>,
    exports: Seq<(Atom, u32)>,
) -> Seq<(Atom, AnalysisResult)>
    decreases funs.len(),
{
    if funs.len() == 0 {
        Seq::empty()
    } else {
        spec_missing_funs(module, imported, funs.drop_last(), exports) + (if exports.contains(
            funs.last(),
        ) {
            Seq::empty()
        } else {
            seq![(module, AnalysisResult::MissingFunction(imported, funs.last().0, funs.last().1))]
        })
    }
}

/// Module-existence rule, and on an existing module the function-existence
/// rule against its exports.
pub open spec fn spec_check_module(
    mv: Seq<(Atom, ModuleCodeView)>,
    module: Atom,
    imported: Atom,
    funs: Seq<(Atom, u32)>,
) -> Seq<(Atom, AnalysisResult)> {
    match assoc_get(mv, imported) {
        Some(code) => spec_missing_funs(module, imported, funs, code.exports),
        None => seq![(module, AnalysisResult::MissingModule(imported))],
    }
}

/// Dependency rule: where both modules have owners, the referencing owner
/// must reach the imported owner in the dependency graph; a module without
/// an owner yields nothing.
pub open spec fn spec_check_dep(
    rev: Seq<(Atom, Atom)>,
    edges: Set<(usize, usize)>,
    module: Atom,
    imported: Atom,
) -> Seq<(Atom, AnalysisResult)> {
    match assoc_get(rev, module) {
        None => Seq::empty(),
        Some(app_from) => match assoc_get(rev, imported) {
            None => Seq::empty(),
            Some(app_to) => if reachable(edges, app_from.0, app_to.0) {
                Seq::empty()
            } else {
                seq![
                    (module, AnalysisResult::MissingDependency {
                        module: imported,
                        app_from,
                        app_to,
                    }),
                ]
            },
        },
    }
}

/// All three rules for one (module, imported module) entry.
pub open spec fn spec_pair_diags(
    mv: Seq<(Atom, ModuleCodeView)>,
    rev: Seq<(Atom, Atom)>,
    edges: Set<(usize, usize)>,
    module: Atom,
    imported: Atom,
    funs: Seq<(Atom, u32)>,
) -> Seq<(Atom, AnalysisResult)> {
    spec_check_module(mv, module, imported, funs) + spec_check_dep(rev, edges, module, imported)
}

/// The diagnostics of one module's whole import list, in list order.
pub open spec fn spec_import_diags(
    mv: Seq<(Atom, ModuleCodeView)>,
    rev: Seq<(Atom, Atom)>,
    edges: Set<(usize, usize)>,
    module: Atom,
    imports: Seq<(Atom, Seq<(Atom, u32)>)>,
) -> Seq<(Atom, AnalysisResult)>
    decreases imports.len(),
{
    if imports.len() == 0 {
        Seq::empty()
    } else {
        spec_import_diags(mv, rev, edges, module, imports.drop_last()) + spec_pair_diags(
            mv,
            rev,
            edges,
            module,
            imports.last().0,
            imports.last().1,
        )
    }
}

/// The diagnostics of one module; a module atom without an entry in the
/// symbol table yields nothing.
pub open spec fn spec_module_diags(
    mv: Seq<(Atom, ModuleCodeView)>,
    rev: Seq<(Atom, Atom)>,
    edges: Set<(usize, usize)>,
    module: Atom,
) -> Seq<(Atom, AnalysisResult)> {
    match assoc_get(mv, module) {
        None => Seq::empty(),
        Some(code) => spec_import_diags(mv, rev, edges, module, code.imports),
    }
}

/// The diagnostics of the given modules, concatenated in order.
pub open spec fn spec_diags_of(
    mv: Seq<(Atom, ModuleCodeView)>,
    rev: Seq<(Atom, Atom)>,
    edges: Set<(usize, usize)>,
    mods: Seq<Atom>,
) -> Seq<(Atom, AnalysisResult)>
    decreases mods.len(),
{
    if mods.len() == 0 {
        Seq::empty()
    } else {
        spec_diags_of(mv, rev, edges, mods.drop_last()) + spec_module_diags(
            mv,
            rev,
            edges,
            mods.last(),
        )
    }
}

/// Every module owned by any application, in table order.
pub open spec fn spec_all_modules(apps: Seq<(Atom, AppView)>) -> Seq<Atom>
    decreases apps.len(),
{
    if apps.len() == 0 {
        Seq::empty()
    } else {
        spec_all_modules(apps.drop_last()) + apps.last().1.modules
    }
}

/// The modules owned by the named applications, in argument order; an
/// unknown application owns nothing.
pub open spec fn spec_arg_modules(apps: Seq<(Atom, AppView)>, arg: Seq<Atom>) -> Seq<Atom>
    decreases arg.len(),
{
    if arg.len() == 0 {
        Seq::empty()
    } else {
        spec_arg_modules(apps, arg.drop_last()) + (match assoc_get(apps, arg.last()) {
            Some(a) => a.modules,
            None => Seq::empty(),
        })
    }
}

/// The modules in scope: those of the named applications, or of every
/// application when none is named (global mode).
pub open spec fn spec_scope(apps: Seq<(Atom, AppView)>, arg: Seq<Atom>) -> Seq<Atom> {
    if arg.len() == 0 {
        spec_all_modules(apps)
    } else {
        spec_arg_modules(apps, arg)
    }
}

/// What a whole analysis run returns.
pub open spec fn spec_run(
    mv: Seq<(Atom, ModuleCodeView)>,
    rev: Seq<(Atom, Atom)>,
    edges: Set<(usize, usize)>,
    apps: Seq<(Atom, AppView)>,
    arg: Seq<Atom>,
) -> Seq<(Atom, AnalysisResult)> {
    spec_diags_of(mv, rev, edges, spec_scope(apps, arg))
}

/// The module -> owning application index: applications in table order,
/// each module of each application mapped to the application's name, later
/// writes replacing earlier ones.
pub open spec fn spec_rev_modules(rev: Seq<(Atom, Atom)>, name: Atom, mods: Seq<Atom>) -> Seq<
    (Atom, Atom),
>
    decreases mods.len(),
{
    if mods.len() == 0 {
        rev
    } else {
        crate::types::assoc_put(spec_rev_modules(rev, name, mods.drop_last()), mods.last(), name)
    }
}

/// The reverse index built from the whole application table.
pub open spec fn spec_build_rev(apps: Seq<(Atom, AppView)>) -> Seq<(Atom, Atom)>
    decreases apps.len(),
{
    if apps.len() == 0 {
        Seq::empty()
    } else {
        spec_rev_modules(
            spec_build_rev(apps.drop_last()),
            apps.last().1.name,
            apps.last().1.modules,
        )
    }
}

/// Law: an intra-application reference never yields a missing-dependency
/// diagnostic — a module importing from a module owned by the same
/// application passes the dependency rule whatever the graph holds.
pub proof fn lemma_intra_app_no_missing_dependency(
    rev: Seq<(Atom, Atom)>,
    edges: Set<(usize, usize)>,
    module: Atom,
    imported: Atom,
)
    requires
        assoc_get(rev, module) == assoc_get(rev, imported),
    ensures
        spec_check_dep(rev, edges, module, imported) == Seq::<(Atom, AnalysisResult)>::empty(),
{
    match assoc_get(rev, module) {
        None => {},
        Some(owner) => {
            lemma_reachable_self(edges, owner.0);
        },
    }
}

/// The analyzer: the frozen snapshot plus the reverse ownership index it
/// builds once; `run` is read-only and may be called repeatedly.
pub struct Analyzer {
    modules: Modules,
    modules_rev: Vec<(Atom, Atom)>,
    apps: Apps,
    app_deps: AppDeps,
}

/// Map `k` to `v` in the reverse-index vector, replacing in place.
fn rev_put(rev: &mut Vec<(Atom, Atom)>, k: Atom, v: Atom)
    ensures
        final(rev)@ == crate::types::assoc_put(old(rev)@, k, v),
{
    proof {
        assert(rev.deep_view() =~= rev@);
    }
    let ghost dv = rev@;
    let i = crate::types::assoc_scan(rev, k);
    if i < rev.len() {
        let ghost pre = rev@;
        rev.remove(i);
        rev.insert(i, (k, v));
        proof {
            assert(rev@ =~= pre.update(i as int, (k, v)));
        }
    } else {
        rev.push((k, v));
    }
}

/// Look `k` up in the reverse-index vector.
fn rev_get(rev: &Vec<(Atom, Atom)>, k: Atom) -> (r: Option<Atom>)
    ensures
        r == assoc_get(rev@, k),
{
    proof {
        assert(rev.deep_view() =~= rev@);
    }
    let i = crate::types::assoc_scan(rev, k);
    if i < rev.len() {
        proof {
            lemma_assoc_index_found(rev@, k, 0);
        }
        Some(rev[i].1)
    } else {
        None
    }
}

impl Analyzer {
    /// The module symbol table the analyzer holds.
    pub closed spec fn modules_view(&self) -> Seq<(Atom, ModuleCodeView)> {
        self.modules@
    }

    /// The module -> owning application index the analyzer built.
    pub closed spec fn rev_view(&self) -> Seq<(Atom, Atom)> {
        self.modules_rev@
    }

    /// The application table the analyzer holds.
    pub closed spec fn apps_view(&self) -> Seq<(Atom, AppView)> {
        self.apps@
    }

    /// The dependency edges the analyzer consults.
    pub closed spec fn edges_view(&self) -> Set<(usize, usize)> {
        graph_edges(self.app_deps)
    }

    /// Take ownership of the frozen snapshot and build the reverse
    /// ownership index from the application table.
    pub fn new(modules: Modules, apps: Apps, app_deps: AppDeps) -> (a: Analyzer)
        ensures
            a.modules_view() == modules@,
            a.apps_view() == apps@,
            a.edges_view() == graph_edges(app_deps),
            a.rev_view() == spec_build_rev(apps@),
    {
        let ghost av = apps@;
        let mut rev: Vec<(Atom, Atom)> = Vec::new();
        let mut i: usize = 0;
        proof {
            assert(av.take(0) =~= Seq::<(Atom, AppView)>::empty());
        }
        while i < apps.len()
            invariant
                i <= av.len(),
                av == apps@,
                rev@ == spec_build_rev(av.take(i as int)),
            decreases av.len() - i,
        {
            let app = apps.at(i);
            let name = app.name;
            let ghost mods = app@.modules;
            let mut j: usize = 0;
            proof {
                assert(mods.take(0) =~= Seq::<Atom>::empty());
            }
            while j < app.modules.len()
                invariant
                    j <= app.modules.len(),
                    app@ == av[i as int].1,
                    i < av.len(),
                    av == apps@,
                    name == app.name,
                    mods == app@.modules,
                    rev@ == spec_rev_modules(spec_build_rev(av.take(i as int)), name, mods.take(
                        j as int,
                    )),
                decreases app.modules.len() - j,
            {
                let m = app.modules[j];
                proof {
                    assert(mods[j as int] == app.modules@[j as int]);
                }
                rev_put(&mut rev, m, name);
                j += 1;
                proof {
                    assert(mods.take(j as int).drop_last() =~= mods.take(j - 1));
                    assert(mods.take(j as int).last() == mods[j - 1]);
                }
            }
            i += 1;
            proof {
                assert(mods.take(app.modules.len() as int) =~= mods);
                assert(av.take(i as int).drop_last() =~= av.take(i - 1));
                assert(av.take(i as int).last() == av[i - 1]);
            }
        }
        proof {
            assert(av.take(av.len() as int) =~= av);
        }
        Analyzer { modules, modules_rev: rev, apps, app_deps }
    }

    /// Module-existence rule for one import entry (and on an existing
    /// module, the function-existence rule).
    fn check_missing_module(
        &self,
        module: Atom,
        imported: Atom,
        functions: &Vec<(Atom, u32)>,
    ) -> (r: Vec<(Atom, AnalysisResult)>)
        ensures
            r@ == spec_check_module(self.modules_view(), module, imported, functions@),
    {
        let ghost fv = functions@;
        match self.modules.get(imported) {
            None => {
                let mut r: Vec<(Atom, AnalysisResult)> = Vec::new();
                r.push((module, AnalysisResult::MissingModule(imported)));
                proof {
                    assert(r@ =~= seq![(module, AnalysisResult::MissingModule(imported))]);
                }
                r
            },
            Some(code) => {
                let ghost exports = code@.exports;
                let mut r: Vec<(Atom, AnalysisResult)> = Vec::new();
                let mut i: usize = 0;
                proof {
                    assert(fv.take(0) =~= Seq::<(Atom, u32)>::empty());
                }
                while i < functions.len()
                    invariant
                        i <= functions.len(),
                        fv == functions@,
                        exports == code@.exports,
                        r@ == spec_missing_funs(module, imported, fv.take(i as int), exports),
                    decreases functions.len() - i,
                {
                    let fa = functions[i];
                    proof {
                        assert(exports =~= code.exports@);
                    }
                    let present = exports_contain(&code.exports, fa);
                    if !present {
                        r.push((module, AnalysisResult::MissingFunction(imported, fa.0, fa.1)));
                    }
                    i += 1;
                    proof {
                        assert(fv.take(i as int).drop_last() =~= fv.take(i - 1));
                        assert(fv.take(i as int).last() == fv[i - 1]);
                        if present {
                            assert(r@ =~= spec_missing_funs(module, imported, fv.take(i - 1), exports)
                                + Seq::<(Atom, AnalysisResult)>::empty());
                        } else {
                            assert(r@ =~= spec_missing_funs(module, imported, fv.take(i - 1), exports)
                                + seq![
                                (module, AnalysisResult::MissingFunction(imported, fa.0, fa.1)),
                            ]);
                        }
                    }
                }
                proof {
                    assert(fv.take(functions.len() as int) =~= fv);
                }
                r
            },
        }
    }

    /// Dependency rule for one import entry.
    fn check_missing_dep(&self, module: Atom, imported: Atom) -> (r: Vec<(Atom, AnalysisResult)>)
        ensures
            r@ == spec_check_dep(self.rev_view(), self.edges_view(), module, imported),
    {
        let mut r: Vec<(Atom, AnalysisResult)> = Vec::new();
        match rev_get(&self.modules_rev, module) {
            None => {},
            Some(app_from) => {
                match rev_get(&self.modules_rev, imported) {
                    None => {},
                    Some(app_to) => {
                        if !graph_has_path(&self.app_deps, app_from.0, app_to.0) {
                            r.push(
                                (module, AnalysisResult::MissingDependency {
                                    module: imported,
                                    app_from,
                                    app_to,
                                }),
                            );
                            proof {
                                assert(r@ =~= seq![
                                    (module, AnalysisResult::MissingDependency {
                                        module: imported,
                                        app_from,
                                        app_to,
                                    }),
                                ]);
                            }
                        }
                    },
                }
            },
        }
        r
    }

    /// The diagnostics of one module in scope.
    fn module_diags(&self, module: Atom) -> (r: Vec<(Atom, AnalysisResult)>)
        ensures
            r@ == spec_module_diags(
                self.modules_view(),
                self.rev_view(),
                self.edges_view(),
                module,
            ),
    {
        let mut r: Vec<(Atom, AnalysisResult)> = Vec::new();
        match self.modules.get(module) {
            None => {},
            Some(code) => {
                let ghost iv = code@.imports;
                let mut j: usize = 0;
                proof {
                    assert(iv.take(0) =~= Seq::<(Atom, Seq<(Atom, u32)>)>::empty());
                }
                while j < code.imports.len()
                    invariant
                        j <= code.imports.len(),
                        iv == code@.imports,
                        assoc_get(self.modules_view(), module) == Some(code@),
                        r@ == spec_import_diags(
                            self.modules_view(),
                            self.rev_view(),
                            self.edges_view(),
                            module,
                            iv.take(j as int),
                        ),
                    decreases code.imports.len() - j,
                {
                    let entry = &code.imports[j];
                    let imported = entry.0;
                    proof {
                        assert(iv[j as int] == (code.imports@[j as int].0, code.imports@[j
                            as int].1.deep_view()));
                        assert(entry.1.deep_view() =~= entry.1@);
                    }
                    let mut a = self.check_missing_module(module, imported, &entry.1);
                    let mut b = self.check_missing_dep(module, imported);
                    let ghost ra = a@;
                    let ghost rb = b@;
                    r.append(&mut a);
                    r.append(&mut b);
                    j += 1;
                    proof {
                        assert(iv.take(j as int).drop_last() =~= iv.take(j - 1));
                        assert(iv.take(j as int).last() == iv[j - 1]);
                    }
                }
                proof {
                    assert(iv.take(code.imports.len() as int) =~= iv);
                }
            },
        }
        r
    }

    /// Run the analysis restricted to the named applications (all
    /// applications when none is named) and return every diagnostic, each
    /// paired with the referencing module.
    pub fn run(&self, apps: &Vec<Atom>) -> (r: Vec<(Atom, AnalysisResult)>)
        ensures
            r@ == spec_run(
                self.modules_view(),
                self.rev_view(),
                self.edges_view(),
                self.apps_view(),
                apps@,
            ),
    {
        let ghost av = self.apps_view();
        let mut scope: Vec<Atom> = Vec::new();
        if apps.len() == 0 {
            let mut i: usize = 0;
            proof {
                assert(av.take(0) =~= Seq::<(Atom, AppView)>::empty());
                assert(scope@ =~= Seq::<Atom>::empty());
            }
            while i < self.apps.len()
                invariant
                    i <= av.len(),
                    av == self.apps_view(),
                    scope@ == spec_all_modules(av.take(i as int)),
                decreases av.len() - i,
            {
                let app = self.apps.at(i);
                let ghost pre = scope@;
                append_atoms(&mut scope, &app.modules);
                i += 1;
                proof {
                    assert(av.take(i as int).drop_last() =~= av.take(i - 1));
                    assert(av.take(i as int).last() == av[i - 1]);
                }
            }
            proof {
                assert(av.take(av.len() as int) =~= av);
            }
        } else {
            let ghost arg = apps@;
            let mut i: usize = 0;
            proof {
                assert(arg.take(0) =~= Seq::<Atom>::empty());
                assert(scope@ =~= Seq::<Atom>::empty());
            }
            while i < apps.len()
                invariant
                    i <= apps.len(),
                    arg == apps@,
                    av == self.apps_view(),
                    scope@ == spec_arg_modules(av, arg.take(i as int)),
                decreases apps.len() - i,
            {
                match self.apps.get(apps[i]) {
                    None => {
                        proof {
                            assert(scope@ + Seq::<Atom>::empty() =~= scope@);
                        }
                    },
                    Some(app) => {
                        append_atoms(&mut scope, &app.modules);
                    },
                }
                i += 1;
                proof {
                    assert(arg.take(i as int).drop_last() =~= arg.take(i - 1));
                    assert(arg.take(i as int).last() == arg[i - 1]);
                }
            }
            proof {
                assert(arg.take(apps.len() as int) =~= arg);
            }
        }
        let ghost sc = scope@;
        let mut r: Vec<(Atom, AnalysisResult)> = Vec::new();
        let mut i: usize = 0;
        proof {
            assert(sc.take(0) =~= Seq::<Atom>::empty());
            assert(r@ =~= Seq::<(Atom, AnalysisResult)>::empty());
        }
        while i < scope.len()
            invariant
                i <= scope.len(),
                sc == scope@,
                r@ == spec_diags_of(
                    self.modules_view(),
                    self.rev_view(),
                    self.edges_view(),
                    sc.take(i as int),
                ),
            decreases scope.len() - i,
        {
            let mut d = self.module_diags(scope[i]);
            r.append(&mut d);
            i += 1;
            proof {
                assert(sc.take(i as int).drop_last() =~= sc.take(i - 1));
                assert(sc.take(i as int).last() == sc[i - 1]);
            }
        }
        proof {
            assert(sc.take(scope.len() as int) =~= sc);
        }
        r
    }
}

/// True iff the export list holds this exact (function, arity) pair.
fn exports_contain(exports: &Vec<(Atom, u32)>, fa: (Atom, u32)) -> (r: bool)
    ensures
        r == exports@.contains(fa),
{
    let mut i: usize = 0;
    while i < exports.len()
        invariant
            i <= exports.len(),
            forall|j: int| 0 <= j < i ==> exports@[j] != fa,
        decreases exports.len() - i,
    {
        if exports[i].0 == fa.0 && exports[i].1 == fa.1 {
            proof {
                assert(exports@[i as int] == fa);
            }
            return true;
        }
        i += 1;
    }
    false
}

/// Append every atom of `more` to `v`.
fn append_atoms(v: &mut Vec<Atom>, more: &Vec<Atom>)
    ensures
        final(v)@ == old(v)@ + more@,
{
    let mut i: usize = 0;
    proof {
        assert(v@ + more@.take(0) =~= v@);
    }
    while i < more.len()
        invariant
            i <= more.len(),
            v@ == old(v)@ + more@.take(i as int),
        decreases more.len() - i,
    {
        v.push(more[i]);
        i += 1;
        proof {
            assert(old(v)@ + more@.take(i - 1) + seq![more@[i - 1]] =~= old(v)@ + more@.take(
                i as int,
            ));
        }
    }
    proof {
        assert(more@.take(more.len() as int) =~= more@);
    }
}

} // verus!
