//! Planning what to install so that a package's dependencies are met.
//!
//! The planner walks the dependency graph depth first from the target
//! package.  A clause that is met by what is installed, or by what the plan
//! already holds, is passed over.  For any other clause the planner takes
//! the first alternative whose version on offer fits and meets what earlier
//! clauses ask of the package, plans that package's own dependencies, and then
//! appends the package to the plan, so that every package comes after what
//! it depends on.
//!
//! Every package that a clause came to rest on, met or chosen, is pinned to
//! the constraint that the clause has for it, and the target is pinned to the
//! version of it that is on offer.  A later alternative is not chosen when
//! the version on offer fails one of the pins of its package.  Where a clause
//! is left without an alternative to choose, the pins that exclude the
//! constraints of its alternatives are reported as conflicts.
//!
//! Failures are collected rather than ending the walk; only running out of
//! depth ends it.

use crate::constraints::{
    clone_constraint, constraints_incompatible, incompatible, meets, Bound, Constraint,
};
use crate::debversion::{compare, DebianVersionNum, VersionRelation, VersionText};
use crate::packages::plan_laws::{
    full_depth_never_runs_out, no_depth_failure, plan_justified, plan_lists_only_unmet_packages,
    plan_puts_dependencies_first, settled, well_ordered,
};
use crate::packages::{
    clone_dependency, Alternative, Catalog, Dependency, Failure, Packages, RelVersionedPackageNum,
    ResolutionFailure,
};
use crate::text::{first_index, lemma_first_index_is, lemma_first_index_none, view_result};
use vstd::prelude::*;

verus! {

/// How far the walk has come with a package.
#[derive(Clone, Copy, Debug, PartialEq, Eq, Structural)]
pub enum Visit {
    /// Not reached yet.
    Unvisited,
    /// Reached, its dependencies not all planned yet.
    InProgress,
    /// Its dependencies are planned.
    Planned,
}

/// The state of a walk.
pub struct Walk {
    /// For each package, how far the walk has come with it.
    pub visit: Seq<Visit>,
    /// For each package, the constraints of the clauses that came to rest on
    /// it, in the order in which they did.
    pub pinned: Seq<Seq<Bound>>,
    /// The packages to install so far, with their versions, in order.
    pub plan: Seq<(usize, VersionText)>,
    /// The failures met so far, in the order in which they were met.
    pub failures: Seq<Failure>,
    /// Whether the walk ran out of depth.
    pub aborted: bool,
}

impl Walk {
    pub open spec fn wf(self, c: Catalog) -> bool {
        self.visit.len() == c.len() && self.pinned.len() == c.len()
    }

    /// The state before the walk: nothing visited, nothing planned, and the
    /// target pinned to the version of it that is on offer.
    pub open spec fn start(c: Catalog, target: int) -> Walk {
        Walk {
            visit: Seq::new(c.len() as nat, |i: int| Visit::Unvisited),
            pinned: Seq::new(c.len() as nat, |i: int| Seq::<Bound>::empty()).update(
                target,
                match c.available_version(target) {
                    Some(v) => seq![(VersionRelation::Equal, v)],
                    None => Seq::empty(),
                },
            ),
            plan: Seq::empty(),
            failures: Seq::empty(),
            aborted: false,
        }
    }

    pub open spec fn fail(self, failure: Failure) -> Walk {
        Walk { failures: self.failures.push(failure), ..self }
    }

    pub open spec fn mark(self, p: int, visit: Visit) -> Walk {
        Walk { visit: self.visit.update(p, visit), ..self }
    }

    /// Pins package `q` to `constraint`, if there is a constraint.
    pub open spec fn pin(self, q: int, constraint: Option<Bound>) -> Walk {
        match constraint {
            Some(c) => Walk { pinned: self.pinned.update(q, self.pinned[q].push(c)), ..self },
            None => self,
        }
    }
}

/// The version that the plan holds for package `q`, if it holds one.
pub open spec fn planned_version(plan: Seq<(usize, VersionText)>, q: int) -> Option<VersionText> {
    let i = first_index(plan.map_values(|e: (usize, VersionText)| e.0 as int), q);
    if i < plan.len() {
        Some(plan[i].1)
    } else {
        None
    }
}

/// The failure that a constraint on a package raises against a pin of the
/// package that excludes it.
pub open spec fn conflict_with(package: usize, pin: Bound, constraint: Bound) -> Option<Failure> {
    if incompatible(pin, constraint) {
        Some(
            Failure::ConflictingVersionConstraints {
                package,
                constraint_a: pin,
                constraint_b: constraint,
            },
        )
    } else {
        None
    }
}

/// The conflicts that an alternative raises against the pins of its package,
/// in the order of the pins.
pub open spec fn conflicts_of(pinned: Seq<Seq<Bound>>, alt: Alternative) -> Seq<Failure> {
    if alt.package < pinned.len() && alt.constraint is Some {
        pinned[alt.package as int].filter_map(
            |pin: Bound| conflict_with(alt.package, pin, alt.constraint->0),
        )
    } else {
        Seq::empty()
    }
}

/// The conflicts that the alternatives of a clause raise, in their order.
pub open spec fn conflicts(pinned: Seq<Seq<Bound>>, clause: Seq<Alternative>) -> Seq<Failure>
    decreases clause.len(),
{
    if clause.len() == 0 {
        Seq::empty()
    } else {
        conflicts(pinned, clause.drop_last()) + conflicts_of(pinned, clause.last())
    }
}

/// Whether the version meets every pin.
pub open spec fn meets_all(version: VersionText, pins: Seq<Bound>) -> bool {
    forall|j: int| 0 <= j < pins.len() ==> meets(version, #[trigger] pins[j])
}

impl Catalog {
    /// The version that package `q` has once the plan is carried out: the
    /// planned one, or else the installed one.
    pub open spec fn effective_version(self, plan: Seq<(usize, VersionText)>, q: int) -> Option<
        VersionText,
    > {
        match planned_version(plan, q) {
            Some(v) => Some(v),
            None => self.installed_version(q),
        }
    }

    /// Whether the alternative is satisfied once the plan is carried out.
    pub open spec fn alternative_met(self, plan: Seq<(usize, VersionText)>, alt: Alternative) -> bool {
        match self.effective_version(plan, alt.package as int) {
            None => false,
            Some(v) => match alt.constraint {
                None => true,
                Some(c) => meets(v, c),
            },
        }
    }

    /// Whether the clause is satisfied once the plan is carried out.
    pub open spec fn clause_met(self, plan: Seq<(usize, VersionText)>, clause: Seq<Alternative>) -> bool {
        exists|i: int| 0 <= i < clause.len() && self.alternative_met(plan, #[trigger] clause[i])
    }

    /// Whether installing the version on offer would satisfy the
    /// alternative.
    pub open spec fn is_candidate(self, alt: Alternative) -> bool {
        match self.available_version(alt.package as int) {
            None => false,
            Some(v) => match alt.constraint {
                None => true,
                Some(c) => meets(v, c),
            },
        }
    }

    /// The index of the first alternative that is satisfied once the plan is
    /// carried out, or the length of the clause if none is.
    pub open spec fn first_met(self, plan: Seq<(usize, VersionText)>, clause: Seq<Alternative>) -> int {
        first_index(clause.map_values(|a: Alternative| self.alternative_met(plan, a)), true)
    }

    /// Whether the alternative may be chosen: it is a candidate, and the
    /// version on offer meets every pin of its package.
    pub open spec fn is_eligible(self, pinned: Seq<Seq<Bound>>, alt: Alternative) -> bool {
        self.is_candidate(alt) && (alt.package < pinned.len() ==> meets_all(
            self.available_version(alt.package as int)->0,
            pinned[alt.package as int],
        ))
    }

    /// The index of the first alternative that may be chosen, or the length
    /// of the clause if none may.
    pub open spec fn first_eligible(self, pinned: Seq<Seq<Bound>>, clause: Seq<Alternative>) -> int {
        first_index(clause.map_values(|a: Alternative| self.is_eligible(pinned, a)), true)
    }

    /// The walk through package `p` with `depth` levels left.
    ///
    /// A planned package is left alone.  A package in progress has been
    /// reached from itself: a cycle.  A package not yet visited needs a level
    /// of depth; it is in progress while its clauses are planned, and planned
    /// after that.
    pub open spec fn plan_package(self, w: Walk, p: int, depth: nat) -> Walk
        decreases depth, 0nat,
    {
        if w.aborted {
            w
        } else if w.visit[p] is Planned {
            w
        } else if w.visit[p] is InProgress {
            w.fail(Failure::CyclicDependency { package: p as usize })
        } else if depth == 0 {
            Walk { aborted: true, ..w.fail(Failure::DepthExceeded) }
        } else {
            let through = self.plan_clauses(
                w.mark(p, Visit::InProgress),
                self.dependencies[p],
                self.dependencies[p].len(),
                (depth - 1) as nat,
            );
            if through.aborted {
                through
            } else {
                through.mark(p, Visit::Planned)
            }
        }
    }

    /// The walk through the first `n` of `clauses`, in order.
    pub open spec fn plan_clauses(
        self,
        w: Walk,
        clauses: Seq<Seq<Alternative>>,
        n: nat,
        depth: nat,
    ) -> Walk
        decreases depth, 2 + n,
    {
        if n == 0 {
            w
        } else {
            let before = self.plan_clauses(w, clauses, (n - 1) as nat, depth);
            if before.aborted {
                before
            } else {
                self.plan_clause(before, clauses[n - 1], depth)
            }
        }
    }

    /// The walk through one clause.
    ///
    /// A clause that is met pins the package of the first alternative that
    /// meets it to that alternative's constraint.  For any other clause the
    /// first alternative that may be chosen is pinned and walked through, and
    /// is appended to the plan if that walk planned it.  Where no alternative
    /// may be chosen, the conflicts of the alternatives with earlier pins are
    /// recorded, and then the clause as unsatisfiable.
    pub open spec fn plan_clause(self, w: Walk, clause: Seq<Alternative>, depth: nat) -> Walk
        decreases depth, 1nat,
    {
        let met = self.first_met(w.plan, clause);
        let i = self.first_eligible(w.pinned, clause);
        if met < clause.len() {
            w.pin(clause[met].package as int, clause[met].constraint)
        } else if i >= clause.len() {
            Walk { failures: w.failures + conflicts(w.pinned, clause), ..w }.fail(
                Failure::UnsatisfiableDependency { clause },
            )
        } else {
            let q = clause[i].package as int;
            let through = self.plan_package(w.pin(q, clause[i].constraint), q, depth);
            if !through.aborted && through.visit[q] is Planned && planned_version(
                through.plan,
                q,
            ) is None {
                Walk {
                    plan: through.plan.push((q as usize, self.available_version(q)->0)),
                    ..through
                }
            } else {
                through
            }
        }
    }

    /// What to install, in order, so that the dependencies of the package
    /// called `name` are met, walking at most `max_depth` packages deep; or
    /// the failures that stand in the way.
    pub open spec fn how_to_install(self, name: Seq<char>, max_depth: nat) -> Result<
        Seq<(usize, VersionText)>,
        Seq<Failure>,
    > {
        match self.find(name) {
            None => Err(seq![Failure::UnknownPackage]),
            Some(target) => {
                let w = self.plan_package(Walk::start(self, target), target, max_depth);
                if w.failures.len() == 0 {
                    Ok(w.plan)
                } else {
                    Err(w.failures)
                }
            },
        }
    }
}

/// The state of a walk, as the planner holds it.
struct WalkState {
    visit: Vec<Visit>,
    pinned: Vec<Vec<Constraint>>,
    plan: Vec<(usize, DebianVersionNum)>,
    failures: Vec<ResolutionFailure>,
    aborted: bool,
}

impl View for WalkState {
    type V = Walk;

    closed spec fn view(&self) -> Walk {
        Walk {
            visit: self.visit@,
            pinned: self.pinned.deep_view(),
            plan: self.plan.deep_view(),
            failures: self.failures.deep_view(),
            aborted: self.aborted,
        }
    }
}

/// Once the walk has run out of depth, further clauses change nothing.
proof fn lemma_aborted_stays(c: Catalog, w: Walk, clauses: Seq<Seq<Alternative>>, k: nat, n: nat, depth: nat)
    requires
        k <= n,
        c.plan_clauses(w, clauses, k, depth).aborted,
    ensures
        c.plan_clauses(w, clauses, n, depth) == c.plan_clauses(w, clauses, k, depth),
    decreases n,
{
    if k < n {
        lemma_aborted_stays(c, w, clauses, k, (n - 1) as nat, depth);
    }
}

fn find_planned<'a>(plan: &'a Vec<(usize, DebianVersionNum)>, q: usize) -> (found: Option<
    &'a DebianVersionNum,
>)
    ensures
        found.deep_view() == planned_version(plan.deep_view(), q as int),
{
    let ghost ids = plan.deep_view().map_values(|e: (usize, VersionText)| e.0 as int);
    let mut i: usize = 0;
    while i < plan.len()
        invariant
            i <= plan.len(),
            ids == plan.deep_view().map_values(|e: (usize, VersionText)| e.0 as int),
            forall|k: int| 0 <= k < i ==> #[trigger] ids[k] != q as int,
        decreases plan.len() - i,
    {
        if plan[i].0 == q {
            proof {
                assert(ids[i as int] == q as int);
                lemma_first_index_is(ids, q as int, i as int);
            }
            return Some(&plan[i].1);
        }
        assert(ids[i as int] != q as int);
        i = i + 1;
    }
    proof {
        lemma_first_index_none(ids, q as int);
    }
    None
}

/// Records the conflicts of one alternative with the pins of its package.
fn note_conflicts_of(walk: &mut WalkState, alt: &RelVersionedPackageNum)
    ensures
        final(walk)@ == (Walk {
            failures: old(walk)@.failures + conflicts_of(old(walk)@.pinned, alt@),
            ..old(walk)@
        }),
{
    let ghost start = walk@;
    assert(start.failures + Seq::<Failure>::empty() =~= start.failures);
    if alt.package_num >= walk.pinned.len() {
        return ;
    }
    let q = alt.package_num;
    let constraint = match &alt.rel_version {
        Some(c) => c,
        None => {
            return ;
        },
    };
    let ghost pins = start.pinned[q as int];
    let ghost f = |pin: Bound| conflict_with(q, pin, constraint.deep_view());
    let mut j: usize = 0;
    assert(pins.take(0).filter_map(f) =~= Seq::<Failure>::empty());
    while j < walk.pinned[q].len()
        invariant
            q < walk.pinned.len(),
            j <= walk.pinned[q as int].len(),
            pins == start.pinned[q as int],
            f == |pin: Bound| conflict_with(q, pin, constraint.deep_view()),
            walk@ == (Walk {
                failures: start.failures + pins.take(j as int).filter_map(f),
                ..start
            }),
        decreases walk.pinned[q as int].len() - j,
    {
        proof {
            pins.lemma_filter_map_take_succ(f, j as int);
        }
        let ghost before = walk.failures.deep_view();
        if constraints_incompatible(&walk.pinned[q][j], constraint) {
            let failure = ResolutionFailure::ConflictingVersionConstraints {
                package: q,
                constraint_a: clone_constraint(&walk.pinned[q][j]),
                constraint_b: clone_constraint(constraint),
            };
            assert(Some(failure@) == f(pins[j as int]));
            walk.failures.push(failure);
            proof {
                assert(walk.failures.deep_view() =~= before.push(f(pins[j as int])->0));
                assert(before.push(f(pins[j as int])->0) =~= start.failures + pins.take(
                    j as int + 1,
                ).filter_map(f));
            }
        } else {
            proof {
                assert(f(pins[j as int]) is None);
                assert(before =~= start.failures + pins.take(j as int + 1).filter_map(f));
            }
        }
        j = j + 1;
    }
    assert(pins.take(pins.len() as int) =~= pins);
}

/// Records the conflicts of the alternatives of `dd` with earlier pins.
fn note_conflicts(walk: &mut WalkState, dd: &Dependency)
    ensures
        final(walk)@ == (Walk {
            failures: old(walk)@.failures + conflicts(old(walk)@.pinned, dd.deep_view()),
            ..old(walk)@
        }),
{
    let ghost start = walk@;
    let ghost clause = dd.deep_view();
    let mut i: usize = 0;
    assert(start.failures + Seq::<Failure>::empty() =~= start.failures);
    assert(clause.take(0) =~= Seq::<Alternative>::empty());
    while i < dd.len()
        invariant
            i <= dd.len(),
            clause == dd.deep_view(),
            walk@ == (Walk {
                failures: start.failures + conflicts(start.pinned, clause.take(i as int)),
                ..start
            }),
        decreases dd.len() - i,
    {
        proof {
            assert(clause.take(i as int + 1).drop_last() =~= clause.take(i as int));
            assert(clause.take(i as int + 1).last() == dd[i as int]@);
        }
        let ghost before = walk@.failures;
        note_conflicts_of(walk, &dd[i]);
        proof {
            assert(before + conflicts_of(start.pinned, dd[i as int]@) =~= start.failures + conflicts(
                start.pinned,
                clause.take(i as int + 1),
            ));
        }
        i = i + 1;
    }
    assert(clause.take(dd.len() as int) =~= clause);
}

/// Pins package `q` to `constraint`, if there is a constraint.
fn pin(walk: &mut WalkState, q: usize, constraint: &Option<Constraint>)
    requires
        q < old(walk)@.pinned.len(),
    ensures
        final(walk)@ == old(walk)@.pin(q as int, constraint.deep_view()),
{
    match constraint {
        Some(c) => {
            let ghost before = walk.pinned.deep_view();
            walk.pinned[q].push(clone_constraint(c));
            proof {
                let after = walk.pinned.deep_view();
                assert(after[q as int] =~= before[q as int].push(c.deep_view()));
                assert(after =~= before.update(q as int, before[q as int].push(c.deep_view())));
            }
        },
        None => {},
    }
}

impl Packages {
    fn alternative_met(&self, plan: &Vec<(usize, DebianVersionNum)>, alt: &RelVersionedPackageNum) -> (met:
        bool)
        requires
            self.wf(),
        ensures
            met == self@.alternative_met(plan.deep_view(), alt@),
    {
        let version = match find_planned(plan, alt.package_num) {
            Some(v) => Some(v),
            None => self.installed_version(alt.package_num),
        };
        match version {
            None => false,
            Some(v) => match &alt.rel_version {
                None => true,
                Some((relation, required)) => compare(v, *relation, required),
            },
        }
    }

    fn first_met(&self, plan: &Vec<(usize, DebianVersionNum)>, dd: &Dependency) -> (index: usize)
        requires
            self.wf(),
        ensures
            index == self@.first_met(plan.deep_view(), dd.deep_view()),
            index <= dd.len(),
    {
        let ghost flags = dd.deep_view().map_values(
            |a: Alternative| self@.alternative_met(plan.deep_view(), a),
        );
        let mut i: usize = 0;
        while i < dd.len()
            invariant
                i <= dd.len(),
                self.wf(),
                flags == dd.deep_view().map_values(
                    |a: Alternative| self@.alternative_met(plan.deep_view(), a),
                ),
                forall|k: int| 0 <= k < i ==> !(#[trigger] flags[k]),
            decreases dd.len() - i,
        {
            if self.alternative_met(plan, &dd[i]) {
                proof {
                    assert(flags[i as int]);
                    lemma_first_index_is(flags, true, i as int);
                }
                return i;
            }
            assert(!flags[i as int]);
            i = i + 1;
        }
        proof {
            lemma_first_index_none(flags, true);
        }
        i
    }

    fn is_candidate(&self, alt: &RelVersionedPackageNum) -> (fits: bool)
        requires
            self.wf(),
        ensures
            fits == self@.is_candidate(alt@),
    {
        match self.available_version(alt.package_num) {
            None => false,
            Some(v) => match &alt.rel_version {
                None => true,
                Some((relation, required)) => compare(v, *relation, required),
            },
        }
    }

    fn is_eligible(&self, pinned: &Vec<Vec<Constraint>>, alt: &RelVersionedPackageNum) -> (fits:
        bool)
        requires
            self.wf(),
        ensures
            fits == self@.is_eligible(pinned.deep_view(), alt@),
    {
        if !self.is_candidate(alt) {
            return false;
        }
        if alt.package_num >= pinned.len() {
            return true;
        }
        let on_offer = match self.available_version(alt.package_num) {
            Some(v) => v,
            None => {
                return false;
            },
        };
        let pins = &pinned[alt.package_num];
        let mut j: usize = 0;
        while j < pins.len()
            invariant
                j <= pins.len(),
                alt.package_num < pinned.len(),
                pins.deep_view() == pinned.deep_view()[alt.package_num as int],
                self@.available_version(alt.package_num as int) == Some(on_offer@),
                self@.is_candidate(alt@),
                forall|k: int| 0 <= k < j ==> meets(on_offer@, #[trigger] pins.deep_view()[k]),
            decreases pins.len() - j,
        {
            if !compare(on_offer, pins[j].0, &pins[j].1) {
                assert(!meets(on_offer@, pins.deep_view()[j as int]));
                return false;
            }
            j = j + 1;
        }
        true
    }

    fn first_eligible(&self, pinned: &Vec<Vec<Constraint>>, dd: &Dependency) -> (index: usize)
        requires
            self.wf(),
        ensures
            index == self@.first_eligible(pinned.deep_view(), dd.deep_view()),
            index <= dd.len(),
            index < dd.len() ==> self@.is_candidate(dd.deep_view()[index as int]),
    {
        let ghost flags = dd.deep_view().map_values(
            |a: Alternative| self@.is_eligible(pinned.deep_view(), a),
        );
        let mut i: usize = 0;
        while i < dd.len()
            invariant
                i <= dd.len(),
                self.wf(),
                flags == dd.deep_view().map_values(
                    |a: Alternative| self@.is_eligible(pinned.deep_view(), a),
                ),
                forall|k: int| 0 <= k < i ==> !(#[trigger] flags[k]),
            decreases dd.len() - i,
        {
            if self.is_eligible(pinned, &dd[i]) {
                proof {
                    assert(flags[i as int]);
                    lemma_first_index_is(flags, true, i as int);
                }
                return i;
            }
            assert(!flags[i as int]);
            i = i + 1;
        }
        proof {
            lemma_first_index_none(flags, true);
        }
        i
    }

    fn plan_clause(&self, walk: &mut WalkState, dd: &Dependency, depth: usize)
        requires
            self.wf(),
            old(walk)@.wf(self@),
            forall|j: int|
                0 <= j < dd.len() ==> self@.knows((#[trigger] dd.deep_view()[j]).package as int),
        ensures
            final(walk)@ == self@.plan_clause(old(walk)@, dd.deep_view(), depth as nat),
            final(walk)@.wf(self@),
        decreases depth, 1nat,
    {
        let met = self.first_met(&walk.plan, dd);
        if met < dd.len() {
            assert(self@.knows(dd.deep_view()[met as int].package as int));
            pin(walk, dd[met].package_num, &dd[met].rel_version);
            return ;
        }
        let i = self.first_eligible(&walk.pinned, dd);
        if i >= dd.len() {
            note_conflicts(walk, dd);
            let failure = ResolutionFailure::UnsatisfiableDependency { clause: clone_dependency(dd) };
            let ghost before = walk.failures.deep_view();
            walk.failures.push(failure);
            assert(walk.failures.deep_view() =~= before.push(
                Failure::UnsatisfiableDependency { clause: dd.deep_view() },
            ));
            return ;
        }
        let q = dd[i].package_num;
        assert(self@.knows(dd.deep_view()[i as int].package as int));
        pin(walk, q, &dd[i].rel_version);
        self.plan_package(walk, q, depth);
        let planned = match walk.visit[q] {
            Visit::Planned => true,
            _ => false,
        };
        if !walk.aborted && planned && find_planned(&walk.plan, q).is_none() {
            match &self.available_debvers[q] {
                Some(v) => {
                    let ghost before = walk.plan.deep_view();
                    walk.plan.push((q, v.clone()));
                    assert(walk.plan.deep_view() =~= before.push((q, v@)));
                },
                None => {},
            }
        }
    }

    fn plan_package(&self, walk: &mut WalkState, p: usize, depth: usize)
        requires
            self.wf(),
            old(walk)@.wf(self@),
            p < self@.len(),
        ensures
            final(walk)@ == self@.plan_package(old(walk)@, p as int, depth as nat),
            final(walk)@.wf(self@),
        decreases depth, 0nat,
    {
        if walk.aborted {
            return ;
        }
        match walk.visit[p] {
            Visit::Planned => {},
            Visit::InProgress => {
                let ghost before = walk.failures.deep_view();
                walk.failures.push(ResolutionFailure::CyclicDependency { package: p });
                assert(walk.failures.deep_view() =~= before.push(
                    Failure::CyclicDependency { package: p },
                ));
            },
            Visit::Unvisited => {
                if depth == 0 {
                    let ghost before = walk.failures.deep_view();
                    walk.failures.push(ResolutionFailure::DepthExceeded);
                    walk.aborted = true;
                    assert(walk.failures.deep_view() =~= before.push(Failure::DepthExceeded));
                    return ;
                }
                walk.visit.set(p, Visit::InProgress);
                let ghost entered = walk@;
                let clauses = &self.dependencies[p];
                let ghost all = clauses.deep_view();
                assert(all == self@.dependencies[p as int]);
                assert(self@.clauses_known(all));
                let mut k: usize = 0;
                while k < clauses.len() && !walk.aborted
                    invariant
                        k <= clauses.len(),
                        self.wf(),
                        depth > 0,
                        all == clauses.deep_view(),
                        self@.clauses_known(all),
                        walk@.wf(self@),
                        entered.wf(self@),
                        walk@ == self@.plan_clauses(entered, all, k as nat, (depth - 1) as nat),
                    decreases clauses.len() - k,
                {
                    assert forall|j: int| 0 <= j < clauses[k as int].len() implies self@.knows(
                        (#[trigger] clauses[k as int].deep_view()[j]).package as int,
                    ) by {
                        assert(all[k as int][j] == clauses[k as int].deep_view()[j]);
                    }
                    self.plan_clause(walk, &clauses[k], depth - 1);
                    k = k + 1;
                }
                proof {
                    if walk.aborted {
                        lemma_aborted_stays(
                            self@,
                            entered,
                            all,
                            k as nat,
                            all.len(),
                            (depth - 1) as nat,
                        );
                    }
                }
                if !walk.aborted {
                    walk.visit.set(p, Visit::Planned);
                }
            },
        }
    }
}

impl Packages {
    /// What to install, in order, so that the dependencies of the package
    /// called `name` are met, or what stands in the way.  The walk goes at
    /// most `max_depth` packages deep and fails with `DepthExceeded` where
    /// that is not enough.
    pub fn compute_how_to_install_within(&self, name: &str, max_depth: usize) -> (result: Result<
        Vec<(usize, DebianVersionNum)>,
        Vec<ResolutionFailure>,
    >)
        requires
            self.wf(),
        ensures
            view_result(result) == self@.how_to_install(name@, max_depth as nat),
            result matches Ok(plan) ==> plan_justified(self@, plan.deep_view()) && well_ordered(
                self@,
                plan.deep_view(),
            ) && settled(self@, plan.deep_view(), self@.find(name@)->0),
            max_depth >= self@.len() ==> (result matches Err(failures) ==> no_depth_failure(
                failures.deep_view(),
            )),
    {
        proof {
            self.lemma_wf();
            plan_lists_only_unmet_packages(self@, name@, max_depth as nat);
            plan_puts_dependencies_first(self@, name@, max_depth as nat);
            if max_depth >= self@.len() {
                full_depth_never_runs_out(self@, name@, max_depth as nat);
            }
        }
        let target = match self.get_package_num(name) {
            Some(target) => target,
            None => {
                let mut failures: Vec<ResolutionFailure> = Vec::new();
                failures.push(ResolutionFailure::UnknownPackage);
                assert(failures.deep_view() =~= seq![Failure::UnknownPackage]);
                return Err(failures);
            },
        };
        let n = self.names.len();
        let mut visit: Vec<Visit> = Vec::new();
        let mut pinned: Vec<Vec<Constraint>> = Vec::new();
        let mut i: usize = 0;
        while i < n
            invariant
                i <= n,
                visit.len() == i,
                pinned.len() == i,
                forall|k: int| 0 <= k < i ==> #[trigger] visit@[k] == Visit::Unvisited,
                forall|k: int| 0 <= k < i ==> (#[trigger] pinned@[k])@.len() == 0,
            decreases n - i,
        {
            visit.push(Visit::Unvisited);
            pinned.push(Vec::new());
            i = i + 1;
        }
        assert(visit@ =~= Seq::new(n as nat, |k: int| Visit::Unvisited));
        proof {
            let none = Seq::new(n as nat, |k: int| Seq::<Bound>::empty());
            assert forall|k: int| 0 <= k < n implies pinned.deep_view()[k] == none[k] by {
                assert(pinned@[k].deep_view() =~= Seq::<Bound>::empty());
            }
            assert(pinned.deep_view() =~= none);
        }
        let ghost unpinned = pinned.deep_view();
        match &self.available_debvers[target] {
            Some(v) => {
                pinned[target].push((VersionRelation::Equal, v.clone()));
                proof {
                    let after = pinned.deep_view();
                    assert(after[target as int] =~= seq![(VersionRelation::Equal, v@)]);
                    assert(after =~= unpinned.update(
                        target as int,
                        seq![(VersionRelation::Equal, v@)],
                    ));
                }
            },
            None => {
                assert(unpinned =~= unpinned.update(target as int, Seq::empty()));
            },
        }
        let mut walk = WalkState {
            visit,
            pinned,
            plan: Vec::new(),
            failures: Vec::new(),
            aborted: false,
        };
        proof {
            let start = Walk::start(self@, target as int);
            assert(walk@.visit =~= start.visit);
            assert(walk@.pinned =~= start.pinned);
            assert(walk@.plan =~= start.plan);
            assert(walk@.failures =~= start.failures);
        }
        self.plan_package(&mut walk, target, max_depth);
        if walk.failures.len() == 0 {
            Ok(walk.plan)
        } else {
            Err(walk.failures)
        }
    }

    /// What to install, in order, so that the dependencies of the package
    /// called `name` are met, or what stands in the way.  The walk may go as
    /// deep as the catalog has packages, which is always enough.
    pub fn compute_how_to_install(&self, name: &str) -> (result: Result<
        Vec<(usize, DebianVersionNum)>,
        Vec<ResolutionFailure>,
    >)
        requires
            self.wf(),
        ensures
            view_result(result) == self@.how_to_install(name@, self@.len() as nat),
            result matches Ok(plan) ==> plan_justified(self@, plan.deep_view()) && well_ordered(
                self@,
                plan.deep_view(),
            ) && settled(self@, plan.deep_view(), self@.find(name@)->0),
            result matches Err(failures) ==> no_depth_failure(failures.deep_view()),
    {
        self.compute_how_to_install_within(name, self.names.len())
    }
}

} // verus!
