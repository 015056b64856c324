//! What holds of every plan and of every walk.

use crate::packages::how_to_install::{
    conflict_with, conflicts, conflicts_of, planned_version, Visit, Walk,
};
use crate::constraints::Bound;
use crate::debversion::VersionText;
use crate::packages::{Alternative, Catalog, Failure};
use crate::text::{first_index, lemma_first_index, lemma_first_index_is, lemma_first_index_none};
use vstd::prelude::*;

verus! {

/// Whether some dependency in the catalog has an alternative that names
/// package `q` and that the installed version of `q`, if there is one, does
/// not satisfy.
pub open spec fn unmet_by_installed(c: Catalog, q: usize) -> bool {
    exists|p: int, k: int, j: int|
        0 <= p < c.len() && 0 <= k < c.dependencies[p].len() && 0 <= j < c.dependencies[p][k].len()
            && (#[trigger] c.dependencies[p][k][j]).package == q && !c.alternative_satisfied(
            c.dependencies[p][k][j],
        )
}

/// Whether a plan entry is called for: its version is the one on offer, and
/// some dependency on the package is not satisfied by what is installed.
pub open spec fn justified(c: Catalog, entry: (usize, VersionText)) -> bool {
    c.available_version(entry.0 as int) == Some(entry.1) && unmet_by_installed(c, entry.0)
}

pub open spec fn plan_justified(c: Catalog, plan: Seq<(usize, VersionText)>) -> bool {
    forall|i: int| 0 <= i < plan.len() ==> justified(c, #[trigger] plan[i])
}

/// Whether `longer` starts with `shorter`.
pub open spec fn extends(longer: Seq<(usize, VersionText)>, shorter: Seq<(usize, VersionText)>) -> bool {
    shorter.len() <= longer.len() && forall|i: int|
        0 <= i < shorter.len() ==> longer[i] == #[trigger] shorter[i]
}

/// The number of packages that the walk has not reached.
pub open spec fn count_unvisited(visit: Seq<Visit>) -> nat
    decreases visit.len(),
{
    if visit.len() == 0 {
        0
    } else {
        count_unvisited(visit.drop_last()) + if visit.last() is Unvisited {
            1nat
        } else {
            0nat
        }
    }
}

pub open spec fn no_depth_failure(failures: Seq<Failure>) -> bool {
    forall|i: int| 0 <= i < failures.len() ==> !((#[trigger] failures[i]) is DepthExceeded)
}

/// Whether the clause is met once the first `m` entries of the plan are
/// carried out, for some `m` up to `upto`.
pub open spec fn met_within(
    c: Catalog,
    plan: Seq<(usize, VersionText)>,
    clause: Seq<Alternative>,
    upto: int,
) -> bool {
    exists|m: int| 0 <= m <= upto && m <= plan.len() && c.clause_met(#[trigger] plan.take(m), clause)
}

/// Whether every dependency of package `q` is met at some point while the
/// plan is carried out.
pub open spec fn settled(c: Catalog, plan: Seq<(usize, VersionText)>, q: int) -> bool {
    forall|k: int|
        0 <= k < c.dependencies[q].len() ==> met_within(
            c,
            plan,
            #[trigger] c.dependencies[q][k],
            plan.len() as int,
        )
}

/// Whether every dependency of every package in the plan is met at some
/// point before the package's own turn.
pub open spec fn well_ordered(c: Catalog, plan: Seq<(usize, VersionText)>) -> bool {
    forall|i: int, k: int|
        0 <= i < plan.len() && 0 <= k < c.dependencies[plan[i].0 as int].len() ==> #[trigger] met_within(
            c,
            plan,
            c.dependencies[plan[i].0 as int][k],
            i,
        )
}

/// Whether the walk has met no failure and has not run out of depth.
pub open spec fn clean(w: Walk) -> bool {
    w.failures.len() == 0 && !w.aborted
}

/// What holds of the state throughout a walk.
pub open spec fn walk_inv(c: Catalog, w: Walk) -> bool {
    &&& w.wf(c)
    &&& plan_justified(c, w.plan)
    &&& (w.aborted || no_depth_failure(w.failures))
    &&& (w.aborted ==> w.failures.len() > 0)
    &&& (clean(w) ==> well_ordered(c, w.plan))
    &&& (clean(w) ==> forall|q: int|
        0 <= q < c.len() && (#[trigger] w.visit[q]) is Planned ==> settled(c, w.plan, q))
}

/// How the state after a part of the walk relates to the state before it,
/// when `depth` levels were left for that part.
pub open spec fn walk_step(c: Catalog, before: Walk, after: Walk, depth: nat) -> bool {
    &&& walk_inv(c, after)
    &&& extends(after.plan, before.plan)
    &&& before.failures.len() <= after.failures.len()
    &&& (before.aborted ==> after.aborted)
    &&& (forall|q: int|
        0 <= q < c.len() && (#[trigger] before.visit[q]) is Planned ==> after.visit[q] is Planned)
    &&& count_unvisited(after.visit) <= count_unvisited(before.visit)
    &&& (!before.aborted && count_unvisited(before.visit) <= depth ==> !after.aborted)
}

proof fn lemma_met_within_extends(
    c: Catalog,
    longer: Seq<(usize, VersionText)>,
    shorter: Seq<(usize, VersionText)>,
    clause: Seq<Alternative>,
    upto: int,
    later: int,
)
    requires
        extends(longer, shorter),
        met_within(c, shorter, clause, upto),
        upto <= later,
    ensures
        met_within(c, longer, clause, later),
{
    let m = choose|m: int|
        0 <= m <= upto && m <= shorter.len() && c.clause_met(#[trigger] shorter.take(m), clause);
    assert(longer.take(m) =~= shorter.take(m));
}

proof fn lemma_settled_extends(
    c: Catalog,
    longer: Seq<(usize, VersionText)>,
    shorter: Seq<(usize, VersionText)>,
    q: int,
)
    requires
        extends(longer, shorter),
        settled(c, shorter, q),
    ensures
        settled(c, longer, q),
{
    assert forall|k: int| 0 <= k < c.dependencies[q].len() implies met_within(
        c,
        longer,
        #[trigger] c.dependencies[q][k],
        longer.len() as int,
    ) by {
        lemma_met_within_extends(
            c,
            longer,
            shorter,
            c.dependencies[q][k],
            shorter.len() as int,
            longer.len() as int,
        );
    }
}

proof fn lemma_well_ordered_push(
    c: Catalog,
    plan: Seq<(usize, VersionText)>,
    entry: (usize, VersionText),
)
    requires
        well_ordered(c, plan),
        settled(c, plan, entry.0 as int),
    ensures
        well_ordered(c, plan.push(entry)),
{
    let longer = plan.push(entry);
    assert forall|i: int, k: int|
        0 <= i < longer.len() && 0 <= k < c.dependencies[longer[i].0 as int].len() implies #[trigger] met_within(
        c,
        longer,
        c.dependencies[longer[i].0 as int][k],
        i,
    ) by {
        if i < plan.len() {
            assert(met_within(c, plan, c.dependencies[plan[i].0 as int][k], i));
            lemma_met_within_extends(c, longer, plan, c.dependencies[plan[i].0 as int][k], i, i);
        } else {
            lemma_met_within_extends(
                c,
                longer,
                plan,
                c.dependencies[entry.0 as int][k],
                plan.len() as int,
                i,
            );
        }
    }
}

proof fn lemma_planned_after_push(plan: Seq<(usize, VersionText)>, entry: (usize, VersionText))
    requires
        planned_version(plan, entry.0 as int) is None,
    ensures
        planned_version(plan.push(entry), entry.0 as int) == Some(entry.1),
{
    let ids = |e: (usize, VersionText)| e.0 as int;
    let q = entry.0 as int;
    lemma_first_index(plan.map_values(ids), q);
    let longer = plan.push(entry).map_values(ids);
    assert forall|k: int| 0 <= k < plan.len() implies longer[k] != q by {
        assert(longer[k] == plan.map_values(ids)[k]);
    }
    lemma_first_index_is(longer, q, plan.len() as int);
}

proof fn lemma_planned_is_on_offer(c: Catalog, plan: Seq<(usize, VersionText)>, q: int)
    requires
        plan_justified(c, plan),
        planned_version(plan, q) is Some,
    ensures
        planned_version(plan, q) == c.available_version(q),
{
    let ids = |e: (usize, VersionText)| e.0 as int;
    lemma_first_index(plan.map_values(ids), q);
    let i = first_index(plan.map_values(ids), q);
    assert(plan.map_values(ids)[i] == q);
    assert(justified(c, plan[i]));
}

proof fn lemma_count_bounds(visit: Seq<Visit>)
    ensures
        count_unvisited(visit) <= visit.len(),
    decreases visit.len(),
{
    if visit.len() > 0 {
        lemma_count_bounds(visit.drop_last());
    }
}

proof fn lemma_count_update(visit: Seq<Visit>, p: int, to: Visit)
    requires
        0 <= p < visit.len(),
        !(to is Unvisited),
    ensures
        count_unvisited(visit.update(p, to)) == count_unvisited(visit) - if visit[p] is Unvisited {
            1int
        } else {
            0int
        },
    decreases visit.len(),
{
    let updated = visit.update(p, to);
    if p == visit.len() - 1 {
        assert(updated.drop_last() =~= visit.drop_last());
    } else {
        lemma_count_update(visit.drop_last(), p, to);
        assert(updated.drop_last() =~= visit.drop_last().update(p, to));
    }
}

proof fn lemma_not_planned_before(
    longer: Seq<(usize, VersionText)>,
    shorter: Seq<(usize, VersionText)>,
    q: int,
)
    requires
        extends(longer, shorter),
        planned_version(longer, q) is None,
    ensures
        planned_version(shorter, q) is None,
{
    let ids = |e: (usize, VersionText)| e.0 as int;
    lemma_first_index(longer.map_values(ids), q);
    assert forall|k: int| 0 <= k < shorter.len() implies shorter.map_values(ids)[k] != q by {
        assert(longer.map_values(ids)[k] == shorter.map_values(ids)[k]);
    }
    lemma_first_index_none(shorter.map_values(ids), q);
}

proof fn lemma_conflicts_are_conflicts(pinned: Seq<Seq<Bound>>, clause: Seq<Alternative>)
    ensures
        no_depth_failure(conflicts(pinned, clause)),
    decreases clause.len(),
{
    if clause.len() > 0 {
        lemma_conflicts_are_conflicts(pinned, clause.drop_last());
        let alt = clause.last();
        let found = conflicts_of(pinned, alt);
        if alt.package < pinned.len() && alt.constraint is Some {
            let f = |pin: Bound| conflict_with(alt.package, pin, alt.constraint->0);
            assert forall|i: int| 0 <= i < found.len() implies !((#[trigger] found[i]) is DepthExceeded) by {
                assert(found.contains(found[i]));
                pinned[alt.package as int].lemma_filter_map_contains(f, found[i]);
            }
        }
    }
}

proof fn lemma_package(c: Catalog, w: Walk, p: int, depth: nat)
    requires
        c.wf(),
        walk_inv(c, w),
        0 <= p < c.len(),
    ensures
        walk_step(c, w, c.plan_package(w, p, depth), depth),
        clean(c.plan_package(w, p, depth)) ==> c.plan_package(w, p, depth).visit[p] is Planned,
    decreases depth, 0nat,
{
    if w.aborted || w.visit[p] is Planned {
    } else if w.visit[p] is InProgress {
    } else {
        lemma_count_update(w.visit, p, Visit::InProgress);
        if depth > 0 {
            let entered = w.mark(p, Visit::InProgress);
            let n = c.dependencies[p].len();
            assert(walk_inv(c, entered)) by {
                assert forall|q: int|
                    0 <= q < c.len() && (#[trigger] entered.visit[q]) is Planned implies w.visit[q] is Planned by {}
            }
            lemma_clauses(c, entered, p, n, (depth - 1) as nat);
            let through = c.plan_clauses(entered, c.dependencies[p], n, (depth - 1) as nat);
            lemma_count_update(through.visit, p, Visit::Planned);
            if !through.aborted {
                let after = through.mark(p, Visit::Planned);
                if clean(after) {
                    assert forall|q: int|
                        0 <= q < c.len() && (#[trigger] after.visit[q]) is Planned implies settled(
                        c,
                        after.plan,
                        q,
                    ) by {
                        if q != p {
                            assert(through.visit[q] is Planned);
                        }
                    }
                }
            }
            let after = c.plan_package(w, p, depth);
            assert forall|q: int|
                0 <= q < c.len() && (#[trigger] w.visit[q]) is Planned implies after.visit[q] is Planned by {
                assert(entered.visit[q] is Planned);
            }
        }
    }
}

proof fn lemma_clauses(c: Catalog, w: Walk, p: int, n: nat, depth: nat)
    requires
        c.wf(),
        walk_inv(c, w),
        0 <= p < c.len(),
        n <= c.dependencies[p].len(),
    ensures
        walk_step(c, w, c.plan_clauses(w, c.dependencies[p], n, depth), depth),
        clean(c.plan_clauses(w, c.dependencies[p], n, depth)) ==> forall|k: int|
            0 <= k < n ==> met_within(
                c,
                c.plan_clauses(w, c.dependencies[p], n, depth).plan,
                #[trigger] c.dependencies[p][k],
                c.plan_clauses(w, c.dependencies[p], n, depth).plan.len() as int,
            ),
    decreases depth, 2 + n,
{
    if n > 0 {
        lemma_clauses(c, w, p, (n - 1) as nat, depth);
        let before = c.plan_clauses(w, c.dependencies[p], (n - 1) as nat, depth);
        if !before.aborted {
            lemma_clause(c, before, p, n - 1, depth);
            let after = c.plan_clause(before, c.dependencies[p][n - 1], depth);
            if clean(after) {
                assert forall|k: int| 0 <= k < n implies met_within(
                    c,
                    after.plan,
                    #[trigger] c.dependencies[p][k],
                    after.plan.len() as int,
                ) by {
                    if k < n - 1 {
                        lemma_met_within_extends(
                            c,
                            after.plan,
                            before.plan,
                            c.dependencies[p][k],
                            before.plan.len() as int,
                            after.plan.len() as int,
                        );
                    }
                }
            }
        }
    }
}

proof fn lemma_first_met(c: Catalog, plan: Seq<(usize, VersionText)>, clause: Seq<Alternative>)
    ensures
        c.first_met(plan, clause) < clause.len() <==> c.clause_met(plan, clause),
        0 <= c.first_met(plan, clause) <= clause.len(),
{
    let flags = clause.map_values(|a: Alternative| c.alternative_met(plan, a));
    lemma_first_index(flags, true);
    let i = first_index(flags, true);
    if i < clause.len() {
        assert(flags[i] == c.alternative_met(plan, clause[i]));
    } else {
        assert forall|k: int| 0 <= k < clause.len() implies !c.alternative_met(
            plan,
            #[trigger] clause[k],
        ) by {
            assert(flags[k] == c.alternative_met(plan, clause[k]));
        }
    }
}

proof fn lemma_clause(c: Catalog, w: Walk, p: int, k: int, depth: nat)
    requires
        c.wf(),
        walk_inv(c, w),
        !w.aborted,
        0 <= p < c.len(),
        0 <= k < c.dependencies[p].len(),
    ensures
        walk_step(c, w, c.plan_clause(w, c.dependencies[p][k], depth), depth),
        clean(c.plan_clause(w, c.dependencies[p][k], depth)) ==> met_within(
            c,
            c.plan_clause(w, c.dependencies[p][k], depth).plan,
            c.dependencies[p][k],
            c.plan_clause(w, c.dependencies[p][k], depth).plan.len() as int,
        ),
    decreases depth, 1nat,
{
    let clause = c.dependencies[p][k];
    lemma_first_met(c, w.plan, clause);
    assert(c.clauses_known(c.dependencies[p]));
    if c.clause_met(w.plan, clause) {
        assert(w.plan.take(w.plan.len() as int) =~= w.plan);
        assert(c.knows(c.dependencies[p][k][c.first_met(w.plan, clause)].package as int));
    } else {
        lemma_conflicts_are_conflicts(w.pinned, clause);
        let flags = clause.map_values(|a: Alternative| c.is_eligible(w.pinned, a));
        lemma_first_index(flags, true);
        let i = c.first_eligible(w.pinned, clause);
        if i < clause.len() {
            let q = clause[i].package as int;
            assert(c.knows(c.dependencies[p][k][i].package as int));
            assert(flags[i] == c.is_eligible(w.pinned, clause[i]));
            let chosen = w.pin(q, clause[i].constraint);
            lemma_package(c, chosen, q, depth);
            let through = c.plan_package(chosen, q, depth);
            if !through.aborted && through.visit[q] is Planned && planned_version(through.plan, q) is None {
                let entry = (q as usize, c.available_version(q)->0);
                let after = Walk { plan: through.plan.push(entry), ..through };
                lemma_not_planned_before(through.plan, w.plan, q);
                assert(!c.alternative_met(w.plan, clause[i]));
                assert(!c.alternative_satisfied(c.dependencies[p][k][i]));
                assert(justified(c, entry));
                if clean(after) {
                    assert(settled(c, through.plan, q));
                    lemma_well_ordered_push(c, through.plan, entry);
                    assert forall|r: int|
                        0 <= r < c.len() && (#[trigger] after.visit[r]) is Planned implies settled(
                        c,
                        after.plan,
                        r,
                    ) by {
                        lemma_settled_extends(c, after.plan, through.plan, r);
                    }
                    lemma_planned_after_push(through.plan, entry);
                    assert(c.alternative_met(after.plan, clause[i]));
                    assert(after.plan.take(after.plan.len() as int) =~= after.plan);
                }
            } else if clean(through) {
                lemma_planned_is_on_offer(c, through.plan, q);
                assert(c.alternative_met(through.plan, clause[i]));
                assert(through.plan.take(through.plan.len() as int) =~= through.plan);
            }
        }
    }
}

/// A plan never lists a package whose installed version already satisfies
/// every dependency on it: each listed package is named by some dependency
/// that its installed version does not satisfy, and is listed with the
/// version on offer.
pub proof fn plan_lists_only_unmet_packages(c: Catalog, name: Seq<char>, max_depth: nat)
    requires
        c.wf(),
    ensures
        c.how_to_install(name, max_depth) matches Ok(plan) ==> plan_justified(c, plan),
{
    if c.find(name) is Some {
        let target = c.find(name)->0;
        lemma_first_index(c.names, name);
        lemma_package(c, Walk::start(c, target), target, max_depth);
    }
}

/// A walk that may go as deep as the catalog has packages never runs out of
/// depth: whatever the dependencies are, cyclic ones too, it ends with a
/// plan or with failures other than `DepthExceeded`.
pub proof fn full_depth_never_runs_out(c: Catalog, name: Seq<char>, max_depth: nat)
    requires
        c.wf(),
        max_depth >= c.len(),
    ensures
        c.how_to_install(name, max_depth) matches Err(failures) ==> no_depth_failure(failures),
{
    if c.find(name) is Some {
        let target = c.find(name)->0;
        lemma_first_index(c.names, name);
        let start = Walk::start(c, target);
        lemma_count_bounds(start.visit);
        lemma_package(c, start, target, max_depth);
    } else {
        assert(seq![Failure::UnknownPackage][0] is UnknownPackage);
    }
}

/// A plan puts dependencies before dependents: every dependency of every
/// package in the plan is met by what is installed together with entries
/// that come before the package's own, and every dependency of the target
/// is met by what is installed together with entries of the plan.
pub proof fn plan_puts_dependencies_first(c: Catalog, name: Seq<char>, max_depth: nat)
    requires
        c.wf(),
    ensures
        c.how_to_install(name, max_depth) matches Ok(plan) ==> well_ordered(c, plan) && settled(
            c,
            plan,
            c.find(name)->0,
        ),
{
    if c.find(name) is Some {
        let target = c.find(name)->0;
        lemma_first_index(c.names, name);
        lemma_package(c, Walk::start(c, target), target, max_depth);
    }
}

/// A walk that comes back to a package it is still in the middle of has
/// found a cycle: it records the cycle and goes no deeper.
pub proof fn coming_back_to_a_package_in_progress_is_a_cycle(c: Catalog, w: Walk, p: int, depth: nat)
    requires
        !w.aborted,
        w.visit[p] is InProgress,
    ensures
        c.plan_package(w, p, depth) == w.fail(Failure::CyclicDependency { package: p as usize }),
{
}

} // verus!
