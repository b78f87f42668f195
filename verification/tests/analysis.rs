use beam_xref::analyzer::{AnalysisResult, Analyzer};
use beam_xref::graph::AppDeps;
use beam_xref::types::{App, Apps, Atom, Interner, ModuleCode, Modules};

struct Names {
    interner: Interner,
}

impl Names {
    fn new() -> Names {
        Names { interner: Interner::new() }
    }

    fn atom(&mut self, s: &str) -> Atom {
        Atom::intern(&mut self.interner, s)
    }
}

fn module(imports: Vec<(Atom, Vec<(Atom, u32)>)>, exports: Vec<(Atom, u32)>) -> ModuleCode {
    ModuleCode { imports, exports }
}

/// One application X owning module B, another Y owning module A which
/// exports f/1; B imports A:f/`arity`. Returns the analyzer inputs.
fn two_app_model(
    n: &mut Names,
    arity: u32,
    with_a: bool,
    edges: &[(&str, &str)],
) -> (Modules, Apps, AppDeps, Atom, Atom, Atom, Atom, Atom) {
    let a = n.atom("a_mod");
    let b = n.atom("b_mod");
    let f = n.atom("f");
    let x = n.atom("x_app");
    let y = n.atom("y_app");
    let mut modules = Modules::new();
    modules.insert(b, module(vec![(a, vec![(f, arity)])], vec![]));
    if with_a {
        modules.insert(a, module(vec![], vec![(f, 1)]));
    }
    let mut apps = Apps::new();
    apps.insert(App { name: x, deps: vec![], modules: vec![b] });
    if with_a {
        apps.insert(App { name: y, deps: vec![], modules: vec![a] });
    }
    let mut g = AppDeps::new();
    g.add_node(x.0);
    g.add_node(y.0);
    for (from, to) in edges {
        let fa = n.atom(from);
        let ta = n.atom(to);
        g.add_edge(fa.0, ta.0, ());
    }
    (modules, apps, g, a, b, f, x, y)
}

#[test]
fn valid_export_same_app_yields_no_diagnostics() {
    let mut n = Names::new();
    let a = n.atom("a_mod");
    let b = n.atom("b_mod");
    let f = n.atom("f");
    let app = n.atom("one_app");
    let mut modules = Modules::new();
    modules.insert(a, module(vec![], vec![(f, 1)]));
    modules.insert(b, module(vec![(a, vec![(f, 1)])], vec![]));
    let mut apps = Apps::new();
    apps.insert(App { name: app, deps: vec![], modules: vec![a, b] });
    let analyzer = Analyzer::new(modules, apps, AppDeps::new());
    let results = analyzer.run(&vec![app]);
    assert!(results.is_empty());
}

#[test]
fn absent_module_yields_exactly_one_missing_module() {
    let mut n = Names::new();
    let (modules, apps, g, a, b, _f, x, _y) = two_app_model(&mut n, 2, false, &[]);
    let analyzer = Analyzer::new(modules, apps, g);
    let results = analyzer.run(&vec![x]);
    assert_eq!(results.len(), 1);
    assert_eq!(results[0], (b, AnalysisResult::MissingModule(a)));
}

#[test]
fn arity_mismatch_yields_exactly_one_missing_function() {
    let mut n = Names::new();
    let (modules, apps, g, a, b, f, x, y) = two_app_model(&mut n, 2, true, &[("x_app", "y_app")]);
    let analyzer = Analyzer::new(modules, apps, g);
    let results = analyzer.run(&vec![x]);
    assert_eq!(results.len(), 1);
    assert_eq!(results[0], (b, AnalysisResult::MissingFunction(a, f, 2)));
    let _ = y;
}

#[test]
fn undeclared_dependency_yields_exactly_one_missing_dependency() {
    let mut n = Names::new();
    let (modules, apps, g, a, b, _f, x, y) = two_app_model(&mut n, 1, true, &[]);
    let analyzer = Analyzer::new(modules, apps, g);
    let results = analyzer.run(&vec![x]);
    assert_eq!(results.len(), 1);
    assert_eq!(
        results[0],
        (
            b,
            AnalysisResult::MissingDependency { module: a, app_from: x, app_to: y }
        )
    );
}

#[test]
fn direct_edge_removes_missing_dependency() {
    let mut n = Names::new();
    let (modules, apps, g, _a, _b, _f, x, _y) =
        two_app_model(&mut n, 1, true, &[("x_app", "y_app")]);
    let analyzer = Analyzer::new(modules, apps, g);
    assert!(analyzer.run(&vec![x]).is_empty());
}

#[test]
fn transitive_path_removes_missing_dependency() {
    let mut n = Names::new();
    let (modules, apps, g, _a, _b, _f, x, _y) =
        two_app_model(&mut n, 1, true, &[("x_app", "z_app"), ("z_app", "y_app")]);
    let analyzer = Analyzer::new(modules, apps, g);
    assert!(analyzer.run(&vec![x]).is_empty());
}

#[test]
fn intra_app_import_never_yields_missing_dependency() {
    // both modules in one application, no edges at all, valid export
    let mut n = Names::new();
    let a = n.atom("a_mod");
    let b = n.atom("b_mod");
    let f = n.atom("f");
    let app = n.atom("the_app");
    let mut modules = Modules::new();
    modules.insert(a, module(vec![], vec![(f, 1)]));
    modules.insert(b, module(vec![(a, vec![(f, 1)])], vec![]));
    let mut apps = Apps::new();
    apps.insert(App { name: app, deps: vec![], modules: vec![a, b] });
    let analyzer = Analyzer::new(modules, apps, AppDeps::new());
    for (_, r) in analyzer.run(&vec![app]) {
        assert!(!matches!(r, AnalysisResult::MissingDependency { .. }));
    }
}

#[test]
fn missing_module_skips_function_and_dependency_rules() {
    let mut n = Names::new();
    let (modules, apps, g, _a, _b, _f, x, _y) = two_app_model(&mut n, 2, false, &[]);
    let analyzer = Analyzer::new(modules, apps, g);
    for (_, r) in analyzer.run(&vec![x]) {
        assert!(matches!(r, AnalysisResult::MissingModule(_)));
    }
}

#[test]
fn empty_subset_analyzes_all_applications() {
    let mut n = Names::new();
    let (modules, apps, g, a, b, _f, _x, _y) = two_app_model(&mut n, 1, true, &[]);
    let analyzer = Analyzer::new(modules, apps, g);
    let results = analyzer.run(&vec![]);
    // global mode covers module b (owned by x_app) and module a (owned by y_app)
    assert_eq!(results.len(), 1);
    assert!(matches!(
        results[0],
        (m, AnalysisResult::MissingDependency { module, .. }) if m == b && module == a
    ));
}

#[test]
fn unknown_application_owns_nothing() {
    let mut n = Names::new();
    let (modules, apps, g, _a, _b, _f, _x, _y) = two_app_model(&mut n, 1, true, &[]);
    let ghost_app = n.atom("no_such_app");
    let analyzer = Analyzer::new(modules, apps, g);
    assert!(analyzer.run(&vec![ghost_app]).is_empty());
}

#[test]
fn one_module_can_yield_many_diagnostics() {
    let mut n = Names::new();
    let m = n.atom("m_mod");
    let gone1 = n.atom("gone1");
    let gone2 = n.atom("gone2");
    let f = n.atom("f");
    let app = n.atom("an_app");
    let mut modules = Modules::new();
    modules.insert(
        m,
        module(
            vec![(gone1, vec![(f, 0)]), (gone2, vec![(f, 1), (f, 2)])],
            vec![],
        ),
    );
    let mut apps = Apps::new();
    apps.insert(App { name: app, deps: vec![], modules: vec![m] });
    let analyzer = Analyzer::new(modules, apps, AppDeps::new());
    let results = analyzer.run(&vec![app]);
    assert_eq!(results.len(), 2);
    assert_eq!(results[0], (m, AnalysisResult::MissingModule(gone1)));
    assert_eq!(results[1], (m, AnalysisResult::MissingModule(gone2)));
}

#[test]
fn module_table_insert_replaces_in_place() {
    let mut n = Names::new();
    let m = n.atom("m_mod");
    let f = n.atom("f");
    let g = n.atom("g");
    let app = n.atom("app0");
    let mut modules = Modules::new();
    modules.insert(m, module(vec![], vec![(f, 1)]));
    modules.insert(m, module(vec![], vec![(g, 2)]));
    assert_eq!(modules.len(), 1);
    let code = modules.get(m).unwrap();
    assert_eq!(code.exports, vec![(g, 2)]);
    assert!(modules.get(app).is_none());
}
