//! The package catalog and the dependency graph built over it.
//!
//! Every package name gets a number the first time it is mentioned, also
//! when a dependency mentions it before its own record has been read.  The
//! numbers index the tables of installed versions, available versions and
//! dependencies.

use crate::constraints::{Bound, Constraint};
use crate::debversion::{DebianVersionNum, VersionText};
use crate::text::{first_index, lemma_first_index, lemma_first_index_is, lemma_first_index_none};
use vstd::prelude::*;

pub mod deps_available;
pub mod how_to_install;
pub mod parsers;
pub mod plan_laws;

verus! {

/// One alternative of a dependency: a package, and the relation that its
/// version has to meet if the dependency asks for one.
#[derive(Debug)]
pub struct RelVersionedPackageNum {
    pub package_num: usize,
    pub rel_version: Option<Constraint>,
}

/// A dependency: alternatives of which any one discharges it, in order of
/// preference.
pub type Dependency = Vec<RelVersionedPackageNum>;

/// The mathematical content of an alternative.
pub struct Alternative {
    pub package: usize,
    pub constraint: Option<Bound>,
}

impl View for RelVersionedPackageNum {
    type V = Alternative;

    open spec fn view(&self) -> Alternative {
        Alternative {
            package: self.package_num,
            constraint: match self.rel_version {
                Some((relation, version)) => Some((relation, version@)),
                None => None,
            },
        }
    }
}

impl DeepView for RelVersionedPackageNum {
    type V = Alternative;

    open spec fn deep_view(&self) -> Alternative {
        self.view()
    }
}

/// What can go wrong while resolving dependencies.
#[derive(Debug)]
pub enum ResolutionFailure {
    /// A package number that the catalog never handed out.
    UnknownPackage,
    /// No alternative of the dependency is met, and none can be chosen for
    /// installation.
    UnsatisfiableDependency { clause: Dependency },
    /// The package depends, through others, on itself.
    CyclicDependency { package: usize },
    /// Two dependencies ask for versions of the package that no single
    /// version can have.
    ConflictingVersionConstraints { package: usize, constraint_a: Constraint, constraint_b: Constraint },
    /// The walk went deeper than the caller allowed.
    DepthExceeded,
}

/// The mathematical content of a `ResolutionFailure`.
pub enum Failure {
    UnknownPackage,
    UnsatisfiableDependency { clause: Seq<Alternative> },
    CyclicDependency { package: usize },
    ConflictingVersionConstraints { package: usize, constraint_a: Bound, constraint_b: Bound },
    DepthExceeded,
}

impl View for ResolutionFailure {
    type V = Failure;

    open spec fn view(&self) -> Failure {
        match self {
            ResolutionFailure::UnknownPackage => Failure::UnknownPackage,
            ResolutionFailure::UnsatisfiableDependency { clause } => Failure::UnsatisfiableDependency {
                clause: clause.deep_view(),
            },
            ResolutionFailure::CyclicDependency { package } => Failure::CyclicDependency {
                package: *package,
            },
            ResolutionFailure::ConflictingVersionConstraints {
                package,
                constraint_a,
                constraint_b,
            } => Failure::ConflictingVersionConstraints {
                package: *package,
                constraint_a: constraint_a.deep_view(),
                constraint_b: constraint_b.deep_view(),
            },
            ResolutionFailure::DepthExceeded => Failure::DepthExceeded,
        }
    }
}

impl DeepView for ResolutionFailure {
    type V = Failure;

    open spec fn deep_view(&self) -> Failure {
        self.view()
    }
}

/// The mathematical content of a catalog: for each package number its name,
/// its installed version, the version on offer, and its dependencies.
pub struct Catalog {
    pub names: Seq<Seq<char>>,
    pub installed: Seq<Option<VersionText>>,
    pub available: Seq<Option<VersionText>>,
    pub dependencies: Seq<Seq<Seq<Alternative>>>,
}

impl Catalog {
    /// The number of packages.
    pub open spec fn len(self) -> int {
        self.names.len() as int
    }

    pub open spec fn knows(self, id: int) -> bool {
        0 <= id < self.len()
    }

    /// Whether every alternative of every clause names a known package.
    pub open spec fn clauses_known(self, clauses: Seq<Seq<Alternative>>) -> bool {
        forall|k: int, j: int|
            0 <= k < clauses.len() && 0 <= j < clauses[k].len() ==> self.knows(
                (#[trigger] clauses[k][j]).package as int,
            )
    }

    /// The tables have one entry per package, no name occurs twice, and
    /// dependencies name known packages only.
    pub open spec fn wf(self) -> bool {
        &&& self.installed.len() == self.len()
        &&& self.available.len() == self.len()
        &&& self.dependencies.len() == self.len()
        &&& forall|i: int, j: int|
            0 <= i < j < self.len() ==> #[trigger] self.names[i] != #[trigger] self.names[j]
        &&& forall|p: int|
            0 <= p < self.len() ==> self.clauses_known(#[trigger] self.dependencies[p])
    }

    pub open spec fn empty() -> Catalog {
        Catalog {
            names: Seq::empty(),
            installed: Seq::empty(),
            available: Seq::empty(),
            dependencies: Seq::empty(),
        }
    }

    /// The number of the package called `name`, if there is one.
    pub open spec fn find(self, name: Seq<char>) -> Option<int> {
        if first_index(self.names, name) < self.len() {
            Some(first_index(self.names, name))
        } else {
            None
        }
    }

    /// The catalog after `name` has been mentioned: unchanged if the name is
    /// known, else with a new package that has no versions and no
    /// dependencies.
    pub open spec fn intern(self, name: Seq<char>) -> Catalog {
        if self.find(name) is Some {
            self
        } else {
            Catalog {
                names: self.names.push(name),
                installed: self.installed.push(None),
                available: self.available.push(None),
                dependencies: self.dependencies.push(Seq::empty()),
            }
        }
    }

    pub open spec fn installed_version(self, id: int) -> Option<VersionText> {
        if 0 <= id < self.installed.len() {
            self.installed[id]
        } else {
            None
        }
    }

    pub open spec fn available_version(self, id: int) -> Option<VersionText> {
        if 0 <= id < self.available.len() {
            self.available[id]
        } else {
            None
        }
    }

    pub open spec fn is_installed(self, id: int) -> bool {
        self.installed_version(id) is Some
    }

    pub open spec fn dependencies_of(self, id: int) -> Seq<Seq<Alternative>> {
        if 0 <= id < self.dependencies.len() {
            self.dependencies[id]
        } else {
            Seq::empty()
        }
    }

    pub open spec fn set_installed(self, id: int, version: VersionText) -> Catalog {
        Catalog { installed: self.installed.update(id, Some(version)), ..self }
    }

    pub open spec fn set_available(self, id: int, version: VersionText) -> Catalog {
        Catalog { available: self.available.update(id, Some(version)), ..self }
    }

    pub open spec fn add_dependency_set(self, owner: int, clauses: Seq<Seq<Alternative>>) -> Catalog {
        Catalog {
            dependencies: self.dependencies.update(owner, self.dependencies[owner] + clauses),
            ..self
        }
    }
}

/// The catalog of one resolution session.
pub struct Packages {
    names: Vec<String>,
    installed_debvers: Vec<Option<DebianVersionNum>>,
    available_debvers: Vec<Option<DebianVersionNum>>,
    dependencies: Vec<Vec<Dependency>>,
    no_dependencies: Vec<Dependency>,
}

impl View for Packages {
    type V = Catalog;

    closed spec fn view(&self) -> Catalog {
        Catalog {
            names: self.names.deep_view(),
            installed: self.installed_debvers.deep_view(),
            available: self.available_debvers.deep_view(),
            dependencies: self.dependencies.deep_view(),
        }
    }
}

impl Packages {
    /// What every catalog that this library hands out satisfies.
    pub closed spec fn wf(&self) -> bool {
        &&& self@.wf()
        &&& self.no_dependencies@.len() == 0
    }

    /// The content of a well-formed catalog is well formed.
    pub proof fn lemma_wf(&self)
        requires
            self.wf(),
        ensures
            self@.wf(),
    {
    }

    /// A catalog without packages.
    pub fn new() -> (out: Packages)
        ensures
            out.wf(),
            out@ == Catalog::empty(),
    {
        let out = Packages {
            names: Vec::new(),
            installed_debvers: Vec::new(),
            available_debvers: Vec::new(),
            dependencies: Vec::new(),
            no_dependencies: Vec::new(),
        };
        assert(out@.names =~= Seq::empty());
        assert(out@.installed =~= Seq::empty());
        assert(out@.available =~= Seq::empty());
        assert(out@.dependencies =~= Seq::empty());
        out
    }

    /// The number of packages.
    pub fn len(&self) -> (n: usize)
        requires
            self.wf(),
        ensures
            n == self@.len(),
    {
        self.names.len()
    }

    /// The number of the package called `name`, if the catalog has one.
    pub fn get_package_num(&self, name: &str) -> (id: Option<usize>)
        requires
            self.wf(),
        ensures
            match id {
                Some(i) => self@.find(name@) == Some(i as int),
                None => self@.find(name@) is None,
            },
    {
        let wanted = name.to_owned();
        let mut i: usize = 0;
        while i < self.names.len()
            invariant
                i <= self.names.len(),
                wanted@ == name@,
                forall|k: int| 0 <= k < i ==> self.names.deep_view()[k] != name@,
            decreases self.names.len() - i,
        {
            if self.names[i] == wanted {
                proof {
                    lemma_first_index_is(self.names.deep_view(), name@, i as int);
                }
                return Some(i);
            }
            i = i + 1;
        }
        proof {
            lemma_first_index_none(self.names.deep_view(), name@);
        }
        None
    }

    /// Whether the catalog has a package called `name`.
    pub fn package_exists(&self, name: &str) -> (known: bool)
        requires
            self.wf(),
        ensures
            known == self@.find(name@) is Some,
    {
        self.get_package_num(name).is_some()
    }

    /// The number of the package called `name`.  A name that the catalog has
    /// not seen gets the next free number.
    pub fn get_package_num_inserting(&mut self, name: &str) -> (id: usize)
        requires
            old(self).wf(),
        ensures
            final(self).wf(),
            final(self)@ == old(self)@.intern(name@),
            final(self)@.find(name@) == Some(id as int),
            old(self)@.find(name@) is None ==> id == old(self)@.len(),
    {
        match self.get_package_num(name) {
            Some(id) => id,
            None => {
                let id = self.names.len();
                proof {
                    lemma_first_index(self.names.deep_view(), name@);
                }
                self.names.push(name.to_owned());
                self.installed_debvers.push(None);
                self.available_debvers.push(None);
                let none: Vec<Dependency> = Vec::new();
                assert(none.deep_view() =~= Seq::empty());
                self.dependencies.push(none);
                proof {
                    let before = old(self)@;
                    assert(self@.names =~= before.names.push(name@));
                    assert(self@.installed =~= before.installed.push(None));
                    assert(self@.available =~= before.available.push(None));
                    assert(self@.dependencies =~= before.dependencies.push(Seq::empty()));
                    assert forall|p: int| 0 <= p < self@.len() implies self@.clauses_known(
                        #[trigger] self@.dependencies[p],
                    ) by {
                        if p < before.len() {
                            assert(before.clauses_known(before.dependencies[p]));
                        }
                    }
                    lemma_first_index_is(self@.names, name@, id as int);
                }
                id
            },
        }
    }

    /// The name of package `id`.
    pub fn get_package_name(&self, id: usize) -> (name: Result<&str, ResolutionFailure>)
        requires
            self.wf(),
        ensures
            match name {
                Ok(text) => self@.knows(id as int) && text@ == self@.names[id as int],
                Err(e) => !self@.knows(id as int) && e is UnknownPackage,
            },
    {
        if id < self.names.len() {
            Ok(self.names[id].as_str())
        } else {
            Err(ResolutionFailure::UnknownPackage)
        }
    }

    /// Records `version` as the installed version of package `id`, in place
    /// of any earlier one.
    pub fn set_installed(&mut self, id: usize, version: DebianVersionNum) -> (done: Result<
        (),
        ResolutionFailure,
    >)
        requires
            old(self).wf(),
        ensures
            final(self).wf(),
            match done {
                Ok(_) => old(self)@.knows(id as int) && final(self)@ == old(self)@.set_installed(
                    id as int,
                    version@,
                ),
                Err(e) => !old(self)@.knows(id as int) && e is UnknownPackage && final(self)@
                    == old(self)@,
            },
    {
        if id >= self.names.len() {
            return Err(ResolutionFailure::UnknownPackage);
        }
        self.installed_debvers.set(id, Some(version));
        proof {
            assert(self@.installed =~= old(self)@.installed.update(id as int, Some(version@)));
        }
        Ok(())
    }

    /// Records `version` as the version of package `id` that is on offer, in
    /// place of any earlier one.
    pub fn set_available(&mut self, id: usize, version: DebianVersionNum) -> (done: Result<
        (),
        ResolutionFailure,
    >)
        requires
            old(self).wf(),
        ensures
            final(self).wf(),
            match done {
                Ok(_) => old(self)@.knows(id as int) && final(self)@ == old(self)@.set_available(
                    id as int,
                    version@,
                ),
                Err(e) => !old(self)@.knows(id as int) && e is UnknownPackage && final(self)@
                    == old(self)@,
            },
    {
        if id >= self.names.len() {
            return Err(ResolutionFailure::UnknownPackage);
        }
        self.available_debvers.set(id, Some(version));
        proof {
            assert(self@.available =~= old(self)@.available.update(id as int, Some(version@)));
        }
        Ok(())
    }

    /// Whether package `id` is installed.
    pub fn is_installed(&self, id: usize) -> (installed: bool)
        requires
            self.wf(),
        ensures
            installed == self@.is_installed(id as int),
    {
        id < self.installed_debvers.len() && self.installed_debvers[id].is_some()
    }

    /// The installed version of package `id`, if it is installed.
    pub fn installed_version(&self, id: usize) -> (version: Option<&DebianVersionNum>)
        requires
            self.wf(),
        ensures
            version.deep_view() == self@.installed_version(id as int),
    {
        if id < self.installed_debvers.len() {
            self.installed_debvers[id].as_ref()
        } else {
            None
        }
    }

    /// The version of package `id` that is on offer, if any is.
    pub fn available_version(&self, id: usize) -> (version: Option<&DebianVersionNum>)
        requires
            self.wf(),
        ensures
            version.deep_view() == self@.available_version(id as int),
    {
        if id < self.available_debvers.len() {
            self.available_debvers[id].as_ref()
        } else {
            None
        }
    }

    /// The dependencies of package `id`; none for a package without any.
    pub fn dependencies_of(&self, id: usize) -> (clauses: &Vec<Dependency>)
        requires
            self.wf(),
        ensures
            clauses.deep_view() == self@.dependencies_of(id as int),
    {
        if id < self.dependencies.len() {
            &self.dependencies[id]
        } else {
            assert(self.no_dependencies.deep_view() =~= Seq::empty());
            &self.no_dependencies
        }
    }
}

impl Clone for RelVersionedPackageNum {
    fn clone(&self) -> (out: Self)
        ensures
            out@ == self@,
    {
        RelVersionedPackageNum {
            package_num: self.package_num,
            rel_version: match &self.rel_version {
                Some((relation, version)) => Some((*relation, version.clone())),
                None => None,
            },
        }
    }
}

/// A copy of a dependency.
pub fn clone_dependency(dd: &Dependency) -> (out: Dependency)
    ensures
        out.deep_view() == dd.deep_view(),
{
    let mut out: Dependency = Vec::new();
    let mut i: usize = 0;
    while i < dd.len()
        invariant
            i <= dd.len(),
            out.len() == i,
            out.deep_view() == dd.deep_view().take(i as int),
        decreases dd.len() - i,
    {
        let ghost before = out.deep_view();
        let copy = dd[i].clone();
        out.push(copy);
        proof {
            let after = out.deep_view();
            let wanted = dd.deep_view().take(i as int + 1);
            assert(after.len() == wanted.len());
            assert forall|k: int| 0 <= k < after.len() implies after[k] == wanted[k] by {
                if k < i {
                    assert(after[k] == before[k]);
                }
            }
            assert(after =~= wanted);
        }
        i = i + 1;
    }
    assert(dd.deep_view().take(dd.len() as int) =~= dd.deep_view());
    out
}

impl Packages {
    /// Whether every alternative of every clause names a package of this
    /// catalog.
    fn clauses_known(&self, clauses: &Vec<Dependency>) -> (known: bool)
        requires
            self.wf(),
        ensures
            known == self@.clauses_known(clauses.deep_view()),
    {
        let mut k: usize = 0;
        while k < clauses.len()
            invariant
                k <= clauses.len(),
                self@.clauses_known(clauses.deep_view().take(k as int)),
            decreases clauses.len() - k,
        {
            let clause = &clauses[k];
            let mut j: usize = 0;
            while j < clause.len()
                invariant
                    j <= clause.len(),
                    k < clauses.len(),
                    clause == &clauses[k as int],
                    forall|i: int|
                        0 <= i < j ==> self@.knows(
                            (#[trigger] clause.deep_view()[i]).package as int,
                        ),
                decreases clause.len() - j,
            {
                if clause[j].package_num >= self.names.len() {
                    assert(!self@.knows(clauses.deep_view()[k as int][j as int].package as int));
                    return false;
                }
                j = j + 1;
            }
            proof {
                let done = clauses.deep_view().take(k as int + 1);
                assert forall|a: int, b: int|
                    0 <= a < done.len() && 0 <= b < done[a].len() implies self@.knows(
                    (#[trigger] done[a][b]).package as int,
                ) by {
                    if a < k {
                        assert(done[a] == clauses.deep_view().take(k as int)[a]);
                    }
                }
            }
            k = k + 1;
        }
        assert(clauses.deep_view().take(clauses.len() as int) =~= clauses.deep_view());
        true
    }

    /// Adds `clauses` to what package `owner` depends on, after those it
    /// already has.  Nothing is added unless the catalog knows `owner` and
    /// every package that the clauses name.
    pub fn add_dependency_set(&mut self, owner: usize, clauses: Vec<Dependency>) -> (done: Result<
        (),
        ResolutionFailure,
    >)
        requires
            old(self).wf(),
        ensures
            final(self).wf(),
            match done {
                Ok(_) => old(self)@.knows(owner as int) && old(self)@.clauses_known(
                    clauses.deep_view(),
                ) && final(self)@ == old(self)@.add_dependency_set(
                    owner as int,
                    clauses.deep_view(),
                ),
                Err(e) => !(old(self)@.knows(owner as int) && old(self)@.clauses_known(
                    clauses.deep_view(),
                )) && e is UnknownPackage && final(self)@ == old(self)@,
            },
    {
        if owner >= self.names.len() || !self.clauses_known(&clauses) {
            return Err(ResolutionFailure::UnknownPackage);
        }
        let mut clauses = clauses;
        let ghost added = clauses.deep_view();
        let ghost before = self.dependencies.deep_view();
        self.dependencies[owner].append(&mut clauses);
        proof {
            let after = self.dependencies.deep_view();
            assert(after[owner as int] =~= before[owner as int] + added);
            assert(after =~= before.update(owner as int, before[owner as int] + added));
            assert forall|p: int| 0 <= p < self@.len() implies self@.clauses_known(
                #[trigger] self@.dependencies[p],
            ) by {
                assert(old(self)@.clauses_known(old(self)@.dependencies[p]));
            }
        }
        Ok(())
    }
}

/// Recording the same installed version twice leaves the catalog as
/// recording it once does, and recording the version that a package already
/// has changes nothing.
pub proof fn set_installed_is_idempotent(c: Catalog, id: int, version: VersionText)
    requires
        c.wf(),
        c.knows(id),
    ensures
        c.set_installed(id, version).set_installed(id, version) == c.set_installed(id, version),
        c.installed_version(id) == Some(version) ==> c.set_installed(id, version) == c,
        c.set_installed(id, version).installed_version(id) == Some(version),
        c.set_installed(id, version).wf(),
{
    let once = c.set_installed(id, version);
    assert(once.set_installed(id, version).installed =~= once.installed);
    if c.installed_version(id) == Some(version) {
        assert(once.installed =~= c.installed);
    }
}

/// Names and numbers correspond one to one: looking up the name of a package
/// gives its number, and a name that is found is the name of the package
/// found.
pub proof fn names_and_numbers_correspond(c: Catalog, id: int, name: Seq<char>)
    requires
        c.wf(),
    ensures
        c.knows(id) ==> c.find(c.names[id]) == Some(id),
        c.find(name) matches Some(found) ==> c.knows(found) && c.names[found] == name,
        c.find(name) is None ==> forall|i: int| 0 <= i < c.len() ==> c.names[i] != name,
{
    lemma_first_index(c.names, name);
    if c.knows(id) {
        lemma_first_index(c.names, c.names[id]);
    }
}

/// Mentioning a name leaves every known name with its number, gives the
/// mentioned name a number, and reuses no number: a new name gets the number
/// after the last one handed out.
pub proof fn intern_keeps_numbers(c: Catalog, name: Seq<char>, other: Seq<char>)
    requires
        c.wf(),
    ensures
        c.intern(name).wf(),
        c.intern(name).find(name) is Some,
        c.find(name) is Some ==> c.intern(name) == c,
        c.find(name) is None ==> c.intern(name).find(name) == Some(c.len()),
        c.find(other) is Some ==> c.intern(name).find(other) == c.find(other),
        c.intern(name).intern(name) == c.intern(name),
{
    let after = c.intern(name);
    lemma_first_index(c.names, name);
    lemma_first_index(c.names, other);
    if c.find(name) is None {
        lemma_first_index_is(after.names, name, c.len());
        assert forall|p: int| 0 <= p < after.len() implies after.clauses_known(
            #[trigger] after.dependencies[p],
        ) by {
            if p < c.len() {
                assert(c.clauses_known(c.dependencies[p]));
            }
        }
        if c.find(other) is Some {
            lemma_first_index_is(after.names, other, first_index(c.names, other));
        }
    }
}

} // verus!
