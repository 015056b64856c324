use rpkg::constraints::constraints_incompatible;
use rpkg::debversion::{DebianVersionNum, VersionRelation};
use rpkg::packages::{RelVersionedPackageNum, ResolutionFailure};
use rpkg::Packages;

fn version(text: &str) -> DebianVersionNum {
    DebianVersionNum::parse(text).expect("a version number")
}

fn any(package_num: usize) -> RelVersionedPackageNum {
    RelVersionedPackageNum { package_num, rel_version: None }
}

fn with(package_num: usize, relation: VersionRelation, required: &str) -> RelVersionedPackageNum {
    RelVersionedPackageNum { package_num, rel_version: Some((relation, version(required))) }
}

fn listed(plan: &[(usize, DebianVersionNum)]) -> Vec<(usize, String)> {
    plan.iter().map(|(id, v)| (*id, v.to_string())).collect()
}

#[test]
fn a_cycle_is_reported_as_a_cycle() {
    let mut catalog = Packages::new();
    let a = catalog.get_package_num_inserting("a");
    let b = catalog.get_package_num_inserting("b");
    catalog.set_available(a, version("1.0")).unwrap();
    catalog.set_available(b, version("1.0")).unwrap();
    catalog.add_dependency_set(a, vec![vec![any(b)]]).unwrap();
    catalog.add_dependency_set(b, vec![vec![any(a)]]).unwrap();
    let failures = catalog.compute_how_to_install("a").unwrap_err();
    assert_eq!(failures.len(), 1);
    assert!(matches!(failures[0], ResolutionFailure::CyclicDependency { package } if package == a));
}

#[test]
fn conflicting_constraints_are_reported() {
    let mut catalog = Packages::new();
    let x = catalog.get_package_num_inserting("x");
    let y = catalog.get_package_num_inserting("y");
    catalog.set_available(x, version("1.0")).unwrap();
    catalog.set_available(y, version("2.0")).unwrap();
    catalog.add_dependency_set(x, vec![vec![with(y, VersionRelation::GreaterOrEqual, "2.0")]]).unwrap();
    catalog.add_dependency_set(y, vec![vec![with(x, VersionRelation::StrictlyLess, "1.0")]]).unwrap();
    let failures = catalog.compute_how_to_install("x").unwrap_err();
    let conflict = failures
        .iter()
        .find(|f| matches!(f, ResolutionFailure::ConflictingVersionConstraints { .. }))
        .expect("a conflict");
    match conflict {
        ResolutionFailure::ConflictingVersionConstraints { package, constraint_a, constraint_b } => {
            assert_eq!(*package, x);
            assert_eq!(constraint_a.0, VersionRelation::Equal);
            assert_eq!(constraint_a.1.to_string(), "1.0");
            assert_eq!(constraint_b.0, VersionRelation::StrictlyLess);
            assert_eq!(constraint_b.1.to_string(), "1.0");
        },
        _ => unreachable!(),
    }
    assert!(failures.iter().any(|f| matches!(f, ResolutionFailure::UnsatisfiableDependency { .. })));
}

#[test]
fn two_clauses_with_opposed_bounds_conflict() {
    let mut catalog = Packages::new();
    let app = catalog.get_package_num_inserting("app");
    let lib = catalog.get_package_num_inserting("lib");
    catalog.set_available(lib, version("6.0")).unwrap();
    catalog
        .add_dependency_set(
            app,
            vec![
                vec![with(lib, VersionRelation::GreaterOrEqual, "5.0")],
                vec![with(lib, VersionRelation::StrictlyLess, "3.0")],
            ],
        )
        .unwrap();
    let failures = catalog.compute_how_to_install("app").unwrap_err();
    assert_eq!(failures.len(), 2);
    match &failures[0] {
        ResolutionFailure::ConflictingVersionConstraints { package, constraint_a, constraint_b } => {
            assert_eq!(*package, lib);
            assert_eq!((constraint_a.0, constraint_a.1.to_string()), (VersionRelation::GreaterOrEqual, "5.0".to_string()));
            assert_eq!((constraint_b.0, constraint_b.1.to_string()), (VersionRelation::StrictlyLess, "3.0".to_string()));
        },
        other => panic!("{:?}", other),
    }
    match &failures[1] {
        ResolutionFailure::UnsatisfiableDependency { clause } => {
            assert_eq!(clause.len(), 1);
            assert_eq!(clause[0].package_num, lib);
        },
        other => panic!("{:?}", other),
    }
}

#[test]
fn a_dependency_without_candidate_is_unsatisfiable() {
    let mut catalog = Packages::new();
    let z = catalog.get_package_num_inserting("z");
    let missing = catalog.get_package_num_inserting("missing");
    catalog.set_available(z, version("1.0")).unwrap();
    catalog.add_dependency_set(z, vec![vec![with(missing, VersionRelation::GreaterOrEqual, "1.0")]]).unwrap();
    let failures = catalog.compute_how_to_install("z").unwrap_err();
    assert_eq!(failures.len(), 1);
    match &failures[0] {
        ResolutionFailure::UnsatisfiableDependency { clause } => {
            assert_eq!(clause.len(), 1);
            assert_eq!(clause[0].package_num, missing);
            let (relation, required) = clause[0].rel_version.as_ref().unwrap();
            assert_eq!(*relation, VersionRelation::GreaterOrEqual);
            assert_eq!(required.to_string(), "1.0");
        },
        other => panic!("{:?}", other),
    }
}

#[test]
fn every_unsatisfiable_dependency_is_reported_in_one_run() {
    let mut catalog = Packages::new();
    let app = catalog.get_package_num_inserting("app");
    let lib = catalog.get_package_num_inserting("lib");
    let gone = catalog.get_package_num_inserting("gone");
    let lost = catalog.get_package_num_inserting("lost");
    catalog.set_available(lib, version("1.0")).unwrap();
    catalog.set_available(lost, version("1.0")).unwrap();
    catalog.add_dependency_set(app, vec![vec![any(gone)], vec![any(lib)]]).unwrap();
    catalog.add_dependency_set(lib, vec![vec![with(lost, VersionRelation::StrictlyGreater, "1.0")]]).unwrap();
    let failures = catalog.compute_how_to_install("app").unwrap_err();
    assert_eq!(failures.len(), 2);
    assert!(matches!(&failures[0], ResolutionFailure::UnsatisfiableDependency { clause } if clause[0].package_num == gone));
    assert!(matches!(&failures[1], ResolutionFailure::UnsatisfiableDependency { clause } if clause[0].package_num == lost));
}

#[test]
fn dependencies_come_before_dependents() {
    let mut catalog = Packages::new();
    let app = catalog.get_package_num_inserting("app");
    let lib = catalog.get_package_num_inserting("lib");
    let base = catalog.get_package_num_inserting("base");
    let extra = catalog.get_package_num_inserting("extra");
    catalog.set_available(app, version("3.0")).unwrap();
    catalog.set_available(lib, version("2.0-1")).unwrap();
    catalog.set_available(base, version("1:1.0")).unwrap();
    catalog.set_available(extra, version("0.9")).unwrap();
    catalog.add_dependency_set(app, vec![vec![any(lib)], vec![any(extra)], vec![any(base)]]).unwrap();
    catalog.add_dependency_set(lib, vec![vec![with(base, VersionRelation::GreaterOrEqual, "1:0.5")]]).unwrap();
    let plan = catalog.compute_how_to_install("app").unwrap();
    assert_eq!(
        listed(&plan),
        vec![(base, "1:1.0".to_string()), (lib, "2.0-1".to_string()), (extra, "0.9".to_string())]
    );
}

#[test]
fn satisfied_dependencies_are_not_planned() {
    let mut catalog = Packages::new();
    let app = catalog.get_package_num_inserting("app");
    let lib = catalog.get_package_num_inserting("lib");
    let old = catalog.get_package_num_inserting("old");
    catalog.set_installed(lib, version("2.0")).unwrap();
    catalog.set_available(lib, version("3.0")).unwrap();
    catalog.set_installed(old, version("1.0")).unwrap();
    catalog.set_available(old, version("2.0")).unwrap();
    catalog
        .add_dependency_set(
            app,
            vec![
                vec![with(lib, VersionRelation::GreaterOrEqual, "2.0")],
                vec![with(old, VersionRelation::GreaterOrEqual, "1.5")],
            ],
        )
        .unwrap();
    let plan = catalog.compute_how_to_install("app").unwrap();
    assert_eq!(listed(&plan), vec![(old, "2.0".to_string())]);
    catalog.set_installed(old, version("2.0")).unwrap();
    assert!(catalog.compute_how_to_install("app").unwrap().is_empty());
}

#[test]
fn the_first_alternative_on_offer_is_chosen() {
    let mut catalog = Packages::new();
    let app = catalog.get_package_num_inserting("app");
    let one = catalog.get_package_num_inserting("one");
    let two = catalog.get_package_num_inserting("two");
    let three = catalog.get_package_num_inserting("three");
    catalog.set_available(one, version("1.0")).unwrap();
    catalog.set_available(two, version("2.0")).unwrap();
    catalog.set_available(three, version("3.0")).unwrap();
    catalog
        .add_dependency_set(
            app,
            vec![vec![with(one, VersionRelation::StrictlyGreater, "1.0"), any(two), any(three)]],
        )
        .unwrap();
    assert_eq!(listed(&catalog.compute_how_to_install("app").unwrap()), vec![(two, "2.0".to_string())]);
}

#[test]
fn a_package_is_planned_once() {
    let mut catalog = Packages::new();
    let app = catalog.get_package_num_inserting("app");
    let left = catalog.get_package_num_inserting("left");
    let right = catalog.get_package_num_inserting("right");
    let base = catalog.get_package_num_inserting("base");
    for id in [left, right, base] {
        catalog.set_available(id, version("1.0")).unwrap();
    }
    catalog.add_dependency_set(app, vec![vec![any(left)], vec![any(right)]]).unwrap();
    catalog.add_dependency_set(left, vec![vec![any(base)]]).unwrap();
    catalog.add_dependency_set(right, vec![vec![any(base)]]).unwrap();
    let plan: Vec<usize> = catalog.compute_how_to_install("app").unwrap().iter().map(|e| e.0).collect();
    assert_eq!(plan, vec![base, left, right]);
}

#[test]
fn a_walk_that_is_too_deep_is_given_up() {
    let mut catalog = Packages::new();
    let names = ["p0", "p1", "p2", "p3"];
    let ids: Vec<usize> = names.iter().map(|n| catalog.get_package_num_inserting(n)).collect();
    for id in &ids {
        catalog.set_available(*id, version("1.0")).unwrap();
    }
    for pair in ids.windows(2) {
        catalog.add_dependency_set(pair[0], vec![vec![any(pair[1])]]).unwrap();
    }
    for depth in 0..4 {
        let failures = catalog.compute_how_to_install_within("p0", depth).unwrap_err();
        assert_eq!(failures.len(), 1);
        assert!(matches!(failures[0], ResolutionFailure::DepthExceeded));
    }
    let plan: Vec<usize> = catalog.compute_how_to_install_within("p0", 4).unwrap().iter().map(|e| e.0).collect();
    assert_eq!(plan, vec![ids[3], ids[2], ids[1]]);
    assert_eq!(catalog.compute_how_to_install("p0").unwrap().len(), 3);
}

#[test]
fn planning_for_an_unknown_package_fails() {
    let catalog = Packages::new();
    let failures = catalog.compute_how_to_install("nobody").unwrap_err();
    assert_eq!(failures.len(), 1);
    assert!(matches!(failures[0], ResolutionFailure::UnknownPackage));
}

#[test]
fn a_package_that_depends_on_itself_is_a_cycle() {
    let mut catalog = Packages::new();
    let me = catalog.get_package_num_inserting("me");
    catalog.set_available(me, version("1.0")).unwrap();
    catalog.add_dependency_set(me, vec![vec![any(me)]]).unwrap();
    let failures = catalog.compute_how_to_install("me").unwrap_err();
    assert!(matches!(failures[0], ResolutionFailure::CyclicDependency { package } if package == me));
}

#[test]
fn constraints_exclude_each_other_when_their_bounds_cross() {
    let c = |relation, text: &str| (relation, version(text));
    let at_least = VersionRelation::GreaterOrEqual;
    let at_most = VersionRelation::LessOrEqual;
    let below = VersionRelation::StrictlyLess;
    let above = VersionRelation::StrictlyGreater;
    let exactly = VersionRelation::Equal;
    assert!(constraints_incompatible(&c(at_least, "5.0"), &c(below, "3.0")));
    assert!(constraints_incompatible(&c(below, "3.0"), &c(at_least, "5.0")));
    assert!(constraints_incompatible(&c(exactly, "1.0"), &c(below, "1.0")));
    assert!(constraints_incompatible(&c(exactly, "1.0"), &c(exactly, "1.1")));
    assert!(constraints_incompatible(&c(above, "2.0"), &c(at_most, "2.0")));
    assert!(!constraints_incompatible(&c(at_least, "2.0"), &c(at_most, "2.0")));
    assert!(!constraints_incompatible(&c(at_least, "1.0"), &c(below, "3.0")));
    assert!(!constraints_incompatible(&c(at_least, "1.0"), &c(above, "3.0")));
    assert!(!constraints_incompatible(&c(exactly, "1.0"), &c(exactly, "1.00")));
}

#[test]
fn a_choice_that_would_break_a_met_dependency_is_a_conflict() {
    let mut catalog = Packages::new();
    let app = catalog.get_package_num_inserting("app");
    let q = catalog.get_package_num_inserting("q");
    catalog.set_installed(q, version("1.0")).unwrap();
    catalog.set_available(q, version("2.0")).unwrap();
    catalog
        .add_dependency_set(
            app,
            vec![
                vec![with(q, VersionRelation::StrictlyLess, "2.0")],
                vec![with(q, VersionRelation::GreaterOrEqual, "2.0")],
            ],
        )
        .unwrap();
    let failures = catalog.compute_how_to_install("app").unwrap_err();
    assert_eq!(failures.len(), 2);
    match &failures[0] {
        ResolutionFailure::ConflictingVersionConstraints { package, constraint_a, constraint_b } => {
            assert_eq!(*package, q);
            assert_eq!((constraint_a.0, constraint_a.1.to_string()), (VersionRelation::StrictlyLess, "2.0".to_string()));
            assert_eq!((constraint_b.0, constraint_b.1.to_string()), (VersionRelation::GreaterOrEqual, "2.0".to_string()));
        },
        other => panic!("{:?}", other),
    }
    assert!(matches!(&failures[1], ResolutionFailure::UnsatisfiableDependency { clause } if clause[0].package_num == q));
}

#[test]
fn another_alternative_avoids_a_conflict() {
    let mut catalog = Packages::new();
    let app = catalog.get_package_num_inserting("app");
    let q = catalog.get_package_num_inserting("q");
    let s = catalog.get_package_num_inserting("s");
    catalog.set_installed(q, version("1.0")).unwrap();
    catalog.set_available(q, version("2.0")).unwrap();
    catalog.set_available(s, version("0.1")).unwrap();
    catalog
        .add_dependency_set(
            app,
            vec![
                vec![with(q, VersionRelation::StrictlyLess, "2.0")],
                vec![with(q, VersionRelation::GreaterOrEqual, "2.0"), any(s)],
            ],
        )
        .unwrap();
    assert_eq!(listed(&catalog.compute_how_to_install("app").unwrap()), vec![(s, "0.1".to_string())]);
}

#[test]
fn an_upgrade_within_earlier_bounds_is_planned() {
    let mut catalog = Packages::new();
    let app = catalog.get_package_num_inserting("app");
    let q = catalog.get_package_num_inserting("q");
    catalog.set_installed(q, version("1.0")).unwrap();
    catalog.set_available(q, version("2.0")).unwrap();
    catalog
        .add_dependency_set(
            app,
            vec![
                vec![with(q, VersionRelation::GreaterOrEqual, "1.0")],
                vec![with(q, VersionRelation::GreaterOrEqual, "2.0")],
            ],
        )
        .unwrap();
    assert_eq!(listed(&catalog.compute_how_to_install("app").unwrap()), vec![(q, "2.0".to_string())]);
}

#[test]
fn every_earlier_constraint_is_held_against_a_later_one() {
    let mut catalog = Packages::new();
    let app = catalog.get_package_num_inserting("app");
    let q = catalog.get_package_num_inserting("q");
    catalog.set_installed(q, version("2.0")).unwrap();
    catalog.set_available(q, version("4.0")).unwrap();
    catalog
        .add_dependency_set(
            app,
            vec![
                vec![with(q, VersionRelation::GreaterOrEqual, "1.0")],
                vec![with(q, VersionRelation::LessOrEqual, "3.0")],
                vec![with(q, VersionRelation::StrictlyGreater, "3.0")],
            ],
        )
        .unwrap();
    let failures = catalog.compute_how_to_install("app").unwrap_err();
    assert_eq!(failures.len(), 2);
    match &failures[0] {
        ResolutionFailure::ConflictingVersionConstraints { package, constraint_a, constraint_b } => {
            assert_eq!(*package, q);
            assert_eq!((constraint_a.0, constraint_a.1.to_string()), (VersionRelation::LessOrEqual, "3.0".to_string()));
            assert_eq!((constraint_b.0, constraint_b.1.to_string()), (VersionRelation::StrictlyGreater, "3.0".to_string()));
        },
        other => panic!("{:?}", other),
    }
    assert!(matches!(&failures[1], ResolutionFailure::UnsatisfiableDependency { .. }));
}

#[test]
fn an_upgrade_past_an_earlier_bound_is_not_chosen() {
    let mut catalog = Packages::new();
    let app = catalog.get_package_num_inserting("app");
    let q = catalog.get_package_num_inserting("q");
    catalog.set_installed(q, version("2.5")).unwrap();
    catalog.set_available(q, version("4.0")).unwrap();
    catalog
        .add_dependency_set(
            app,
            vec![
                vec![with(q, VersionRelation::LessOrEqual, "3.0")],
                vec![with(q, VersionRelation::GreaterOrEqual, "2.8")],
            ],
        )
        .unwrap();
    let failures = catalog.compute_how_to_install("app").unwrap_err();
    assert_eq!(failures.len(), 1);
    assert!(matches!(&failures[0], ResolutionFailure::UnsatisfiableDependency { clause } if clause[0].package_num == q));
}
