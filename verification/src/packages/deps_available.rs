//! Whether a dependency is met by what is installed, and if not, which of
//! its alternatives are installed in a version that does not fit.

use crate::debversion::{compare, satisfies};
use crate::packages::{
    clone_dependency, Alternative, Catalog, Dependency, Packages, RelVersionedPackageNum,
    ResolutionFailure,
};
use crate::text::{first_index, lemma_first_index, lemma_first_index_is};
use vstd::prelude::*;

verus! {

/// How a dependency stands against what is installed.
#[derive(Debug)]
pub enum DependencyOutcome {
    /// The package that meets the dependency: the first alternative that is
    /// installed in a fitting version.
    SatisfiedBy(usize),
    /// No alternative is installed.
    MissingAll,
    /// The alternatives that are installed, none of them in a fitting
    /// version.
    WrongVersion(Vec<usize>),
}

/// The mathematical content of a `DependencyOutcome`.
pub enum Outcome {
    SatisfiedBy(usize),
    MissingAll,
    WrongVersion(Seq<usize>),
}

impl View for DependencyOutcome {
    type V = Outcome;

    open spec fn view(&self) -> Outcome {
        match self {
            DependencyOutcome::SatisfiedBy(p) => Outcome::SatisfiedBy(*p),
            DependencyOutcome::MissingAll => Outcome::MissingAll,
            DependencyOutcome::WrongVersion(v) => Outcome::WrongVersion(v@),
        }
    }
}

impl DeepView for DependencyOutcome {
    type V = Outcome;

    open spec fn deep_view(&self) -> Outcome {
        self.view()
    }
}

impl Catalog {
    /// An alternative is satisfied when its package is installed and the
    /// installed version meets the relation, if the alternative has one.
    pub open spec fn alternative_satisfied(self, alt: Alternative) -> bool {
        match self.installed_version(alt.package as int) {
            None => false,
            Some(installed) => match alt.constraint {
                None => true,
                Some((relation, required)) => satisfies(installed, relation, required),
            },
        }
    }

    /// A clause is satisfied when one of its alternatives is.
    pub open spec fn clause_satisfied(self, clause: Seq<Alternative>) -> bool {
        exists|i: int| 0 <= i < clause.len() && self.alternative_satisfied(#[trigger] clause[i])
    }

    /// The package of the first alternative that is satisfied.
    pub open spec fn dep_is_satisfied(self, clause: Seq<Alternative>) -> Option<usize> {
        let i = first_index(clause.map_values(|a: Alternative| self.alternative_satisfied(a)), true);
        if i < clause.len() {
            Some(clause[i].package)
        } else {
            None
        }
    }

    /// An alternative whose package is installed in a version that does not
    /// meet its relation.
    pub open spec fn wrong_version(self, alt: Alternative) -> bool {
        self.is_installed(alt.package as int) && !self.alternative_satisfied(alt)
    }

    /// The packages of the alternatives that are installed in a wrong
    /// version, in the order of the clause; none when the clause is satisfied.
    pub open spec fn dep_satisfied_by_wrong_version(self, clause: Seq<Alternative>) -> Seq<usize> {
        if self.dep_is_satisfied(clause) is Some {
            Seq::empty()
        } else {
            clause.filter(|a: Alternative| self.wrong_version(a)).map_values(
                |a: Alternative| a.package,
            )
        }
    }

    /// How a clause stands against what is installed.
    pub open spec fn outcome(self, clause: Seq<Alternative>) -> Outcome {
        match self.dep_is_satisfied(clause) {
            Some(p) => Outcome::SatisfiedBy(p),
            None => if self.dep_satisfied_by_wrong_version(clause).len() == 0 {
                Outcome::MissingAll
            } else {
                Outcome::WrongVersion(self.dep_satisfied_by_wrong_version(clause))
            },
        }
    }

    /// The dependencies of the package called `name`, each with its outcome.
    pub open spec fn deps_available(self, name: Seq<char>) -> Option<
        Seq<(Seq<Alternative>, Outcome)>,
    > {
        match self.find(name) {
            None => None,
            Some(id) => Some(
                self.dependencies[id].map_values(|clause: Seq<Alternative>| (clause, self.outcome(clause))),
            ),
        }
    }
}

/// A clause has no satisfying package exactly when it is not satisfied.
pub proof fn unsatisfied_iff_no_satisfier(c: Catalog, clause: Seq<Alternative>)
    ensures
        c.dep_is_satisfied(clause) is None <==> !c.clause_satisfied(clause),
        c.dep_is_satisfied(clause) matches Some(p) ==> exists|i: int|
            0 <= i < clause.len() && c.alternative_satisfied(#[trigger] clause[i]) && clause[i].package
                == p,
{
    let flags = clause.map_values(|a: Alternative| c.alternative_satisfied(a));
    lemma_first_index(flags, true);
    let i = first_index(flags, true);
    if i < clause.len() {
        assert(flags[i] == c.alternative_satisfied(clause[i]));
    } else {
        assert forall|k: int| 0 <= k < clause.len() implies !c.alternative_satisfied(
            #[trigger] clause[k],
        ) by {
            assert(flags[k] == c.alternative_satisfied(clause[k]));
        }
    }
}

/// Every package reported as installed in a wrong version is the package of
/// an alternative of the clause and is installed, and none is reported for a
/// clause that is satisfied.
pub proof fn wrong_versions_are_installed_alternatives(c: Catalog, clause: Seq<Alternative>)
    ensures
        c.dep_is_satisfied(clause) is Some ==> c.dep_satisfied_by_wrong_version(clause).len() == 0,
        forall|k: int|
            0 <= k < c.dep_satisfied_by_wrong_version(clause).len() ==> exists|i: int|
                0 <= i < clause.len() && (#[trigger] clause[i]).package
                    == #[trigger] c.dep_satisfied_by_wrong_version(clause)[k] && c.is_installed(
                    clause[i].package as int,
                ) && !c.alternative_satisfied(clause[i]),
{
    if c.dep_is_satisfied(clause) is None {
        let pred = |a: Alternative| c.wrong_version(a);
        let kept = clause.filter(pred);
        assert forall|k: int|
            0 <= k < c.dep_satisfied_by_wrong_version(clause).len() implies exists|i: int|
            0 <= i < clause.len() && (#[trigger] clause[i]).package
                == #[trigger] c.dep_satisfied_by_wrong_version(clause)[k] && c.is_installed(
                clause[i].package as int,
            ) && !c.alternative_satisfied(clause[i]) by {
            clause.lemma_filter_pred(pred, k);
            assert(kept.contains(kept[k]));
            clause.lemma_filter_contains_rev(pred, kept[k]);
            let i = choose|i: int| 0 <= i < clause.len() && clause[i] == kept[k];
            assert(clause[i].package == c.dep_satisfied_by_wrong_version(clause)[k]);
        }
    }
}

impl Packages {
    /// Whether the alternative's package is installed in a version that
    /// the alternative accepts.
    pub fn alternative_satisfied(&self, alt: &RelVersionedPackageNum) -> (satisfied: bool)
        requires
            self.wf(),
        ensures
            satisfied == self@.alternative_satisfied(alt@),
    {
        if alt.package_num >= self.installed_debvers.len() {
            return false;
        }
        match &self.installed_debvers[alt.package_num] {
            None => false,
            Some(installed) => match &alt.rel_version {
                None => true,
                Some((relation, required)) => compare(installed, *relation, required),
            },
        }
    }

    /// Whether one of the alternatives of `dd` is satisfied.
    pub fn clause_satisfied(&self, dd: &Dependency) -> (satisfied: bool)
        requires
            self.wf(),
        ensures
            satisfied == self@.clause_satisfied(dd.deep_view()),
    {
        proof {
            unsatisfied_iff_no_satisfier(self@, dd.deep_view());
        }
        self.dep_is_satisfied(dd).is_some()
    }

    /// The package that satisfies dependency `dd`: the first alternative, in
    /// the order of the dependency, that is installed in a fitting version.
    /// `None` when no alternative is.
    pub fn dep_is_satisfied(&self, dd: &Dependency) -> (satisfier: Option<usize>)
        requires
            self.wf(),
        ensures
            satisfier == self@.dep_is_satisfied(dd.deep_view()),
    {
        let ghost clause = dd.deep_view();
        let ghost flags = clause.map_values(|a: Alternative| self@.alternative_satisfied(a));
        let mut i: usize = 0;
        while i < dd.len()
            invariant
                i <= dd.len(),
                clause == dd.deep_view(),
                flags == clause.map_values(|a: Alternative| self@.alternative_satisfied(a)),
                self.wf(),
                forall|k: int| 0 <= k < i ==> !(#[trigger] flags[k]),
            decreases dd.len() - i,
        {
            if self.alternative_satisfied(&dd[i]) {
                proof {
                    assert(flags[i as int]);
                    lemma_first_index_is(flags, true, i as int);
                }
                return Some(dd[i].package_num);
            }
            assert(!flags[i as int]);
            i = i + 1;
        }
        proof {
            lemma_first_index(flags, true);
        }
        None
    }

    /// The packages that would satisfy dependency `dd` but for their version:
    /// the alternatives that are installed in a version that does not fit, in
    /// the order of the dependency.  Empty when `dd` is satisfied.
    pub fn dep_satisfied_by_wrong_version(&self, dd: &Dependency) -> (wrong: Vec<usize>)
        requires
            self.wf(),
        ensures
            wrong@ == self@.dep_satisfied_by_wrong_version(dd.deep_view()),
    {
        let mut wrong: Vec<usize> = Vec::new();
        if self.dep_is_satisfied(dd).is_some() {
            return wrong;
        }
        let ghost clause = dd.deep_view();
        let ghost pred = |a: Alternative| self@.wrong_version(a);
        let ghost pick = |a: Alternative| a.package;
        let mut i: usize = 0;
        assert(clause.take(0) =~= Seq::<Alternative>::empty());
        while i < dd.len()
            invariant
                i <= dd.len(),
                clause == dd.deep_view(),
                pred == |a: Alternative| self@.wrong_version(a),
                pick == |a: Alternative| a.package,
                self.wf(),
                wrong@ == clause.take(i as int).filter(pred).map_values(pick),
            decreases dd.len() - i,
        {
            let alt = &dd[i];
            proof {
                clause.take(i as int).lemma_filter_push(clause[i as int], pred);
                assert(clause.take(i as int).push(clause[i as int]) =~= clause.take(i as int + 1));
            }
            if self.is_installed(alt.package_num) && !self.alternative_satisfied(alt) {
                wrong.push(alt.package_num);
                assert(wrong@ =~= clause.take(i as int + 1).filter(pred).map_values(pick));
            }
            i = i + 1;
        }
        assert(clause.take(dd.len() as int) =~= clause);
        wrong
    }

    /// How dependency `dd` stands against what is installed.
    pub fn outcome(&self, dd: &Dependency) -> (out: DependencyOutcome)
        requires
            self.wf(),
        ensures
            out@ == self@.outcome(dd.deep_view()),
    {
        match self.dep_is_satisfied(dd) {
            Some(p) => DependencyOutcome::SatisfiedBy(p),
            None => {
                let wrong = self.dep_satisfied_by_wrong_version(dd);
                if wrong.len() == 0 {
                    DependencyOutcome::MissingAll
                } else {
                    DependencyOutcome::WrongVersion(wrong)
                }
            },
        }
    }

    /// The dependencies of the package called `name`, each with the package
    /// that satisfies it, or with the packages that are installed in a wrong
    /// version, or with the note that none of its alternatives is installed.
    pub fn deps_available(&self, name: &str) -> (report: Result<
        Vec<(Dependency, DependencyOutcome)>,
        ResolutionFailure,
    >)
        requires
            self.wf(),
        ensures
            match report {
                Ok(rows) => Some(rows.deep_view()) == self@.deps_available(name@),
                Err(e) => e is UnknownPackage && self@.deps_available(name@) is None,
            },
    {
        let id = match self.get_package_num(name) {
            Some(id) => id,
            None => {
                return Err(ResolutionFailure::UnknownPackage);
            },
        };
        let clauses = &self.dependencies[id];
        let ghost wanted = self@.deps_available(name@)->0;
        let mut rows: Vec<(Dependency, DependencyOutcome)> = Vec::new();
        let mut k: usize = 0;
        while k < clauses.len()
            invariant
                k <= clauses.len(),
                rows.len() == k,
                self.wf(),
                wanted.len() == clauses.len(),
                forall|i: int|
                    0 <= i < clauses.len() ==> #[trigger] wanted[i] == (
                        clauses.deep_view()[i],
                        self@.outcome(clauses.deep_view()[i]),
                    ),
                forall|i: int| 0 <= i < k ==> #[trigger] rows.deep_view()[i] == wanted[i],
            decreases clauses.len() - k,
        {
            let ghost before = rows.deep_view();
            let row = (clone_dependency(&clauses[k]), self.outcome(&clauses[k]));
            rows.push(row);
            proof {
                let after = rows.deep_view();
                assert forall|i: int| 0 <= i < k + 1 implies #[trigger] after[i] == wanted[i] by {
                    if i < k {
                        assert(after[i] == before[i]);
                    }
                }
            }
            k = k + 1;
        }
        assert(rows.deep_view() =~= wanted);
        Ok(rows)
    }
}

} // verus!
