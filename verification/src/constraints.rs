//! Version constraints, and when two of them exclude each other.
//!
//! A constraint is a relation and a version, as in `>= 2.0`.  It bounds the
//! versions that meet it from below (`>=`, `>>`, `=`), from above (`<=`, `<<`,
//! `=`), or both.  Two constraints exclude each other when the lower bound of
//! one lies above the upper bound of the other, or on it with one of the two
//! bounds strict.

use crate::debversion::{
    order_is_transitive, relations_agree_with_order, satisfies, version_order, DebianVersionNum,
    VersionRelation, VersionText,
};
use vstd::prelude::*;

verus! {

impl DeepView for VersionRelation {
    type V = VersionRelation;

    open spec fn deep_view(&self) -> VersionRelation {
        *self
    }
}

/// A relation together with the version it refers to.
pub type Constraint = (VersionRelation, DebianVersionNum);

/// The mathematical content of a constraint.
pub type Bound = (VersionRelation, VersionText);

pub open spec fn bounds_below(relation: VersionRelation) -> bool {
    relation is GreaterOrEqual || relation is StrictlyGreater || relation is Equal
}

pub open spec fn bounds_above(relation: VersionRelation) -> bool {
    relation is LessOrEqual || relation is StrictlyLess || relation is Equal
}

pub open spec fn is_strict(relation: VersionRelation) -> bool {
    relation is StrictlyLess || relation is StrictlyGreater
}

/// Whether `lower` bounds from below, `upper` bounds from above, and the lower
/// bound lies above the upper one, or on it with one of them strict.
pub open spec fn clash(lower: Bound, upper: Bound) -> bool {
    bounds_below(lower.0) && bounds_above(upper.0) && (version_order(lower.1, upper.1) > 0 || (
    version_order(lower.1, upper.1) == 0 && (is_strict(lower.0) || is_strict(upper.0))))
}

/// Whether the two constraints exclude each other.
pub open spec fn incompatible(a: Bound, b: Bound) -> bool {
    clash(a, b) || clash(b, a)
}

/// Whether `version` meets the constraint.
pub open spec fn meets(version: VersionText, constraint: Bound) -> bool {
    satisfies(version, constraint.0, constraint.1)
}

proof fn lemma_clash_excludes(lower: Bound, upper: Bound, version: VersionText)
    requires
        clash(lower, upper),
    ensures
        !(meets(version, lower) && meets(version, upper)),
{
    if meets(version, lower) && meets(version, upper) {
        relations_agree_with_order(version, lower.1);
        relations_agree_with_order(version, upper.1);
        relations_agree_with_order(lower.1, upper.1);
        order_is_transitive(lower.1, version, upper.1);
    }
}

/// No version meets both of two constraints that exclude each other.
pub proof fn incompatible_constraints_exclude(a: Bound, b: Bound, version: VersionText)
    requires
        incompatible(a, b),
    ensures
        !(meets(version, a) && meets(version, b)),
{
    if clash(a, b) {
        lemma_clash_excludes(a, b, version);
    } else {
        lemma_clash_excludes(b, a, version);
    }
}

fn bounds_below_exec(relation: VersionRelation) -> (b: bool)
    ensures
        b == bounds_below(relation),
{
    match relation {
        VersionRelation::GreaterOrEqual => true,
        VersionRelation::StrictlyGreater => true,
        VersionRelation::Equal => true,
        _ => false,
    }
}

fn bounds_above_exec(relation: VersionRelation) -> (b: bool)
    ensures
        b == bounds_above(relation),
{
    match relation {
        VersionRelation::LessOrEqual => true,
        VersionRelation::StrictlyLess => true,
        VersionRelation::Equal => true,
        _ => false,
    }
}

fn is_strict_exec(relation: VersionRelation) -> (b: bool)
    ensures
        b == is_strict(relation),
{
    match relation {
        VersionRelation::StrictlyLess => true,
        VersionRelation::StrictlyGreater => true,
        _ => false,
    }
}

fn clash_exec(lower: &Constraint, upper: &Constraint) -> (b: bool)
    ensures
        b == clash(lower.deep_view(), upper.deep_view()),
{
    if !bounds_below_exec(lower.0) || !bounds_above_exec(upper.0) {
        return false;
    }
    let order = lower.1.order_against(&upper.1);
    order > 0 || (order == 0 && (is_strict_exec(lower.0) || is_strict_exec(upper.0)))
}

/// Decides whether two constraints exclude each other.
pub fn constraints_incompatible(a: &Constraint, b: &Constraint) -> (excluded: bool)
    ensures
        excluded == incompatible(a.deep_view(), b.deep_view()),
{
    clash_exec(a, b) || clash_exec(b, a)
}

/// A copy of a constraint.
pub fn clone_constraint(c: &Constraint) -> (out: Constraint)
    ensures
        out.deep_view() == c.deep_view(),
{
    (c.0, c.1.clone())
}

} // verus!
