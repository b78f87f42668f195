//! Symbol interning: names (of modules, functions and applications) are
//! interned once into `Atom`s and compared thereafter by atom identity.

use vstd::prelude::*;

verus! {

/// An interned symbolic identifier for a name (module, function or
/// application). Two atoms are equal iff they were interned from equal
/// strings on the same `Interner`; identity is run-local.
#[derive(Clone, Copy, PartialEq, Eq, Hash, Debug, Structural)]
pub struct Atom(pub usize);

/// Bidirectional string <-> `Atom` table. `Atom(i)` names the `i`-th
/// distinct string interned, in insertion order.
pub struct Interner {
    names: Vec<String>,
}

/// True iff `s` occurs in the table `tbl`.
pub open spec fn contains_name(tbl: Seq<Seq<char>>, s: Seq<char>) -> bool {
    exists|i: int| 0 <= i < tbl.len() && tbl[i] == s
}

/// The index of `s` in `tbl` (meaningful only when `contains_name` holds;
/// unique when the table holds distinct names).
pub open spec fn name_index(tbl: Seq<Seq<char>>, s: Seq<char>) -> int {
    choose|i: int| 0 <= i < tbl.len() && tbl[i] == s
}

/// What interning does to a table: an existing name keeps the table and
/// yields its index; a new name is appended and yields the old length.
pub open spec fn spec_intern(tbl: Seq<Seq<char>>, s: Seq<char>) -> (Seq<Seq<char>>, int) {
    if contains_name(tbl, s) {
        (tbl, name_index(tbl, s))
    } else {
        (tbl.push(s), tbl.len() as int)
    }
}

impl View for Interner {
    type V = Seq<Seq<char>>;

    closed spec fn view(&self) -> Seq<Seq<char>> {
        self.names.deep_view()
    }
}

impl Interner {
    /// Well-formed: all interned names are distinct, so an atom resolves to
    /// exactly the string it was interned from.
    pub open spec fn wf(&self) -> bool {
        forall|i: int, j: int| 0 <= i < j < self@.len() ==> self@[i] != self@[j]
    }

    pub fn new() -> (r: Interner)
        ensures
            r@ == Seq::<Seq<char>>::empty(),
            r.wf(),
    {
        Interner { names: Vec::new() }
    }

    /// Intern `value`: return the atom of an equal already-interned string,
    /// or append `value` as a fresh atom.
    pub fn intern(&mut self, value: &str) -> (a: Atom)
        requires
            old(self).wf(),
        ensures
            final(self).wf(),
            (final(self)@, a.0 as int) == spec_intern(old(self)@, value@),
            a.0 < final(self)@.len(),
            final(self)@[a.0 as int] == value@,
            old(self)@.is_prefix_of(final(self)@),
    {
        let owned: String = value.to_owned();
        let n = self.names.len();
        let mut i: usize = 0;
        while i < n
            invariant
                *self == *old(self),
                self.wf(),
                n == self.names.len(),
                i <= n,
                forall|j: int| 0 <= j < i ==> self@[j] != value@,
                owned@ == value@,
            decreases n - i,
        {
            if self.names[i] == owned {
                assert(self@[i as int] == value@);
                assert(contains_name(self@, value@));
                assert(forall|j: int| 0 <= j < self@.len() && self@[j] == value@ ==> j == i);
                assert(name_index(self@, value@) == i);
                return Atom(i);
            }
            i += 1;
        }
        assert(!contains_name(self@, value@));
        self.names.push(owned);
        assert(self@ =~= old(self)@.push(value@));
        Atom(n)
    }

    /// The number of interned names.
    pub fn len(&self) -> (n: usize)
        ensures
            n == self@.len(),
    {
        self.names.len()
    }
}

impl Atom {
    /// Intern `value` on `interner` (see `Interner::intern`).
    pub fn intern(interner: &mut Interner, value: &str) -> (a: Atom)
        requires
            old(interner).wf(),
        ensures
            final(interner).wf(),
            (final(interner)@, a.0 as int) == spec_intern(old(interner)@, value@),
            old(interner)@.is_prefix_of(final(interner)@),
    {
        interner.intern(value)
    }

    /// Resolve this atom back to the string it was interned from. `None`
    /// only for an atom that `interner` never produced.
    pub fn resolve(&self, interner: &Interner) -> (r: Option<String>)
        ensures
            match r {
                Some(s) => self.0 < interner@.len() && s@ == interner@[self.0 as int],
                None => self.0 >= interner@.len(),
            },
    {
        if self.0 < interner.len() {
            Some(interner.names[self.0].clone())
        } else {
            None
        }
    }
}

impl View for Atom {
    type V = Atom;

    open spec fn view(&self) -> Atom {
        *self
    }
}

impl DeepView for Atom {
    type V = Atom;

    open spec fn deep_view(&self) -> Atom {
        *self
    }
}

/// The string an atom stands for (the empty string for an atom the table
/// never produced; well-formed states hold no such atom).
pub open spec fn resolve_atom(tbl: Seq<Seq<char>>, a: Atom) -> Seq<char> {
    if a.0 < tbl.len() {
        tbl[a.0 as int]
    } else {
        Seq::empty()
    }
}

/// The position of the first entry keyed `k` at or after `i`, or -1.
pub open spec fn assoc_index<K, V>(s: Seq<(K, V)>, k: K, i: int) -> int
    decreases s.len() - i,
{
    if i < 0 || i >= s.len() {
        -1
    } else if s[i].0 == k {
        i
    } else {
        assoc_index(s, k, i + 1)
    }
}

/// The value keyed `k`, if any.
pub open spec fn assoc_get<K, V>(s: Seq<(K, V)>, k: K) -> Option<V> {
    let i = assoc_index(s, k, 0);
    if i < 0 {
        None
    } else {
        Some(s[i].1)
    }
}

/// Map `k` to `v`: replace the entry in place if the key exists, else
/// append one.
pub open spec fn assoc_put<K, V>(s: Seq<(K, V)>, k: K, v: V) -> Seq<(K, V)> {
    let i = assoc_index(s, k, 0);
    if i < 0 {
        s.push((k, v))
    } else {
        s.update(i, (k, v))
    }
}

/// An entry keyed `k` exists at a nonnegative index with that key.
pub proof fn lemma_assoc_index_found<K, V>(s: Seq<(K, V)>, k: K, i: int)
    ensures
        assoc_index(s, k, i) >= 0 ==> i <= assoc_index(s, k, i) < s.len() && s[assoc_index(
            s,
            k,
            i,
        )].0 == k,
    decreases s.len() - i,
{
    if i < 0 || i >= s.len() {
    } else if s[i].0 == k {
    } else {
        lemma_assoc_index_found(s, k, i + 1);
    }
}

/// Law: interning is idempotent. Interning a string into the table that a
/// first interning of it produced changes nothing and yields the same atom.
pub proof fn lemma_intern_idempotent(tbl: Seq<Seq<char>>, s: Seq<char>)
    requires
        forall|i: int, j: int| 0 <= i < j < tbl.len() ==> tbl[i] != tbl[j],
    ensures
        spec_intern(spec_intern(tbl, s).0, s).0 == spec_intern(tbl, s).0,
        spec_intern(spec_intern(tbl, s).0, s).1 == spec_intern(tbl, s).1,
{
    let tbl1 = spec_intern(tbl, s).0;
    let a = spec_intern(tbl, s).1;
    assert(0 <= a < tbl1.len() && tbl1[a] == s);
    assert(contains_name(tbl1, s));
    if contains_name(tbl, s) {
        assert(forall|j: int| 0 <= j < tbl1.len() && tbl1[j] == s ==> j == a);
    } else {
        assert(forall|j: int| 0 <= j < tbl.len() ==> tbl[j] != s);
        assert(forall|j: int| 0 <= j < tbl1.len() && tbl1[j] == s ==> j == a);
    }
    assert(name_index(tbl1, s) == a);
}

/// Law: interning round-trips. The atom that interning `s` yields resolves,
/// on the resulting table, to `s` itself.
pub proof fn lemma_intern_resolve_roundtrip(tbl: Seq<Seq<char>>, s: Seq<char>)
    ensures
        0 <= spec_intern(tbl, s).1 < spec_intern(tbl, s).0.len(),
        spec_intern(tbl, s).0[spec_intern(tbl, s).1] == s,
{
}

/// What one module holds: for each imported module atom, the ordered
/// (function, arity) references made to it; and the ordered (function,
/// arity) pairs it exports (duplicates kept, membership tested as a set).
pub struct ModuleCode {
    pub imports: Vec<(Atom, Vec<(Atom, u32)>)>,
    pub exports: Vec<(Atom, u32)>,
}

/// `ModuleCode` at the specification level.
pub struct ModuleCodeView {
    pub imports: Seq<(Atom, Seq<(Atom, u32)>)>,
    pub exports: Seq<(Atom, u32)>,
}

impl View for ModuleCode {
    type V = ModuleCodeView;

    open spec fn view(&self) -> ModuleCodeView {
        ModuleCodeView { imports: self.imports.deep_view(), exports: self.exports.deep_view() }
    }
}

impl DeepView for ModuleCode {
    type V = ModuleCodeView;

    open spec fn deep_view(&self) -> ModuleCodeView {
        self.view()
    }
}

/// One application: its name, the application names it declares
/// dependencies on, and the modules it owns.
pub struct App {
    pub name: Atom,
    pub deps: Vec<Atom>,
    pub modules: Vec<Atom>,
}

/// `App` at the specification level.
pub struct AppView {
    pub name: Atom,
    pub deps: Seq<Atom>,
    pub modules: Seq<Atom>,
}

impl View for App {
    type V = AppView;

    open spec fn view(&self) -> AppView {
        AppView { name: self.name, deps: self.deps.deep_view(), modules: self.modules.deep_view() }
    }
}

impl DeepView for App {
    type V = AppView;

    open spec fn deep_view(&self) -> AppView {
        self.view()
    }
}

/// Find the entry keyed `k`, the vector's length standing for "no entry".
pub(crate) fn assoc_scan<V: DeepView>(entries: &Vec<(Atom, V)>, k: Atom) -> (r: usize)
    ensures
        r <= entries.len(),
        r < entries.len() ==> assoc_index(entries.deep_view(), k, 0) == r,
        r == entries.len() ==> assoc_index(entries.deep_view(), k, 0) == -1,
{
    let ghost dv = entries.deep_view();
    let mut i: usize = 0;
    while i < entries.len()
        invariant
            i <= entries.len(),
            dv == entries.deep_view(),
            assoc_index(dv, k, 0) == assoc_index(dv, k, i as int),
        decreases entries.len() - i,
    {
        proof {
            assert(dv[i as int] == (entries@[i as int].0, entries@[i as int].1.deep_view()));
        }
        if entries[i].0 == k {
            return i;
        }
        i += 1;
    }
    entries.len()
}

/// The module symbol table: module atom -> what the module holds. Keyed
/// uniquely; a later insert of the same atom replaces the earlier entry.
pub struct Modules {
    entries: Vec<(Atom, ModuleCode)>,
}

impl View for Modules {
    type V = Seq<(Atom, ModuleCodeView)>;

    closed spec fn view(&self) -> Seq<(Atom, ModuleCodeView)> {
        self.entries.deep_view()
    }
}

impl Modules {
    pub fn new() -> (r: Modules)
        ensures
            r@ == Seq::<(Atom, ModuleCodeView)>::empty(),
    {
        let r = Modules { entries: Vec::new() };
        proof {
            assert(r@ =~= Seq::<(Atom, ModuleCodeView)>::empty());
        }
        r
    }

    pub fn len(&self) -> (n: usize)
        ensures
            n == self@.len(),
    {
        self.entries.len()
    }

    /// Map `m` to `code`, replacing any earlier entry for `m` in place.
    pub fn insert(&mut self, m: Atom, code: ModuleCode)
        ensures
            final(self)@ == assoc_put(old(self)@, m, code@),
    {
        let ghost dv = self@;
        let ghost code_view = code@;
        let i = assoc_scan(&self.entries, m);
        if i < self.entries.len() {
            let ghost pre = self.entries@;
            self.entries.remove(i);
            self.entries.insert(i, (m, code));
            proof {
                assert(self.entries@ =~= pre.update(i as int, (m, self.entries@[i as int].1)));
                assert(self@ =~= dv.update(i as int, (m, code_view)));
            }
        } else {
            let ghost pre_vec = self.entries;
            self.entries.push((m, code));
            proof {
                assert(self@ =~= pre_vec.deep_view().push((m, code_view)));
            }
        }
    }

    /// The entry for `m`, if any.
    pub fn get(&self, m: Atom) -> (r: Option<&ModuleCode>)
        ensures
            r matches Some(c) ==> assoc_get(self@, m) == Some(c@),
            r is None ==> assoc_get(self@, m) is None,
    {
        let i = assoc_scan(&self.entries, m);
        if i < self.entries.len() {
            proof {
                lemma_assoc_index_found(self@, m, 0);
                assert(self@[i as int] == (self.entries@[i as int].0, self.entries@[i
                    as int].1.deep_view()));
            }
            Some(&self.entries[i].1)
        } else {
            None
        }
    }
}

/// The application table: application name atom -> the application. Keyed
/// uniquely; a later insert of the same name replaces the earlier entry.
pub struct Apps {
    entries: Vec<(Atom, App)>,
}

impl View for Apps {
    type V = Seq<(Atom, AppView)>;

    closed spec fn view(&self) -> Seq<(Atom, AppView)> {
        self.entries.deep_view()
    }
}

impl Apps {
    pub fn new() -> (r: Apps)
        ensures
            r@ == Seq::<(Atom, AppView)>::empty(),
    {
        let r = Apps { entries: Vec::new() };
        proof {
            assert(r@ =~= Seq::<(Atom, AppView)>::empty());
        }
        r
    }

    pub fn len(&self) -> (n: usize)
        ensures
            n == self@.len(),
    {
        self.entries.len()
    }

    /// Insert `app` under its name, replacing any earlier application of
    /// the same name in place (last write wins).
    pub fn insert(&mut self, app: App)
        ensures
            final(self)@ == assoc_put(old(self)@, app.name, app@),
    {
        let ghost dv = self@;
        let ghost app_view = app@;
        let ghost key = app.name;
        let i = assoc_scan(&self.entries, app.name);
        if i < self.entries.len() {
            let ghost pre = self.entries@;
            self.entries.remove(i);
            self.entries.insert(i, (app.name, app));
            proof {
                assert(self.entries@ =~= pre.update(i as int, (key, self.entries@[i as int].1)));
                assert(self@ =~= dv.update(i as int, (key, app_view)));
            }
        } else {
            let ghost pre_vec = self.entries;
            self.entries.push((app.name, app));
            proof {
                assert(self@ =~= pre_vec.deep_view().push((key, app_view)));
            }
        }
    }

    /// The application named `k`, if any.
    pub fn get(&self, k: Atom) -> (r: Option<&App>)
        ensures
            r matches Some(a) ==> assoc_get(self@, k) == Some(a@),
            r is None ==> assoc_get(self@, k) is None,
    {
        let i = assoc_scan(&self.entries, k);
        if i < self.entries.len() {
            proof {
                lemma_assoc_index_found(self@, k, 0);
                assert(self@[i as int] == (self.entries@[i as int].0, self.entries@[i
                    as int].1.deep_view()));
            }
            Some(&self.entries[i].1)
        } else {
            None
        }
    }

    /// The application at position `i`, in insertion order.
    pub fn at(&self, i: usize) -> (r: &App)
        requires
            i < self@.len(),
        ensures
            r@ == self@[i as int].1,
    {
        proof {
            assert(self@[i as int] == (self.entries@[i as int].0, self.entries@[i
                as int].1.deep_view()));
        }
        &self.entries[i].1
    }
}

} // verus!
