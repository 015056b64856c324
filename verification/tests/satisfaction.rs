use rpkg::debversion::{DebianVersionNum, VersionRelation};
use rpkg::packages::deps_available::DependencyOutcome;
use rpkg::packages::{Dependency, RelVersionedPackageNum, ResolutionFailure};
use rpkg::Packages;

fn version(text: &str) -> DebianVersionNum {
    DebianVersionNum::parse(text).expect("a version number")
}

fn any(package_num: usize) -> RelVersionedPackageNum {
    RelVersionedPackageNum { package_num, rel_version: None }
}

fn with(package_num: usize, relation: VersionRelation, required: &str) -> RelVersionedPackageNum {
    RelVersionedPackageNum { package_num, rel_version: Some((relation, version(required))) }
}

#[test]
fn two_alternatives_installed_in_wrong_versions() {
    let mut catalog = Packages::new();
    let app = catalog.get_package_num_inserting("app");
    let lib = catalog.get_package_num_inserting("lib");
    let libalt = catalog.get_package_num_inserting("libalt");
    catalog.set_installed(lib, version("1.0")).unwrap();
    catalog.set_installed(libalt, version("1.0")).unwrap();
    let clause: Dependency = vec![
        with(lib, VersionRelation::GreaterOrEqual, "2.0"),
        with(libalt, VersionRelation::GreaterOrEqual, "3.0"),
    ];
    catalog.add_dependency_set(app, vec![clause]).unwrap();
    let clause = &catalog.dependencies_of(app)[0];
    assert_eq!(catalog.dep_is_satisfied(clause), None);
    assert!(!catalog.clause_satisfied(clause));
    assert_eq!(catalog.dep_satisfied_by_wrong_version(clause), vec![lib, libalt]);
    let names: Vec<&str> = catalog
        .dep_satisfied_by_wrong_version(clause)
        .iter()
        .map(|id| catalog.get_package_name(*id).unwrap())
        .collect();
    assert_eq!(names, vec!["lib", "libalt"]);
}

#[test]
fn an_alternative_without_constraint_is_satisfied_by_any_version() {
    let mut catalog = Packages::new();
    let lib = catalog.get_package_num_inserting("lib");
    let libalt = catalog.get_package_num_inserting("libalt");
    catalog.set_installed(lib, version("1.0")).unwrap();
    catalog.set_installed(libalt, version("1.0")).unwrap();
    let clause: Dependency = vec![with(lib, VersionRelation::GreaterOrEqual, "2.0"), any(libalt)];
    assert_eq!(catalog.dep_is_satisfied(&clause), Some(libalt));
    assert!(catalog.clause_satisfied(&clause));
    assert!(catalog.dep_satisfied_by_wrong_version(&clause).is_empty());
}

#[test]
fn an_exact_version_satisfies_an_equality() {
    let mut catalog = Packages::new();
    let app = catalog.get_package_num_inserting("app");
    let tool = catalog.get_package_num_inserting("tool");
    catalog.set_installed(tool, version("1.5")).unwrap();
    catalog.add_dependency_set(app, vec![vec![with(tool, VersionRelation::Equal, "1.5")]]).unwrap();
    let clause = &catalog.dependencies_of(app)[0];
    assert_eq!(catalog.dep_is_satisfied(clause), Some(tool));
    assert_eq!(catalog.get_package_name(tool).unwrap(), "tool");
    assert!(catalog.alternative_satisfied(&clause[0]));
}

#[test]
fn the_first_alternative_that_works_is_reported() {
    let mut catalog = Packages::new();
    let a = catalog.get_package_num_inserting("a");
    let b = catalog.get_package_num_inserting("b");
    let c = catalog.get_package_num_inserting("c");
    catalog.set_installed(b, version("2.0")).unwrap();
    catalog.set_installed(c, version("9.0")).unwrap();
    let clause: Dependency = vec![any(a), with(b, VersionRelation::StrictlyGreater, "1.0"), any(c)];
    assert_eq!(catalog.dep_is_satisfied(&clause), Some(b));
    let reversed: Dependency = vec![any(c), with(b, VersionRelation::StrictlyGreater, "1.0"), any(a)];
    assert_eq!(catalog.dep_is_satisfied(&reversed), Some(c));
}

#[test]
fn missing_packages_are_not_wrong_versions() {
    let mut catalog = Packages::new();
    let a = catalog.get_package_num_inserting("a");
    let b = catalog.get_package_num_inserting("b");
    let c = catalog.get_package_num_inserting("c");
    catalog.set_installed(b, version("1.0")).unwrap();
    let clause: Dependency = vec![
        any(a),
        with(b, VersionRelation::StrictlyLess, "1.0"),
        with(c, VersionRelation::Equal, "1.0"),
        with(b, VersionRelation::StrictlyGreater, "1.0"),
    ];
    assert_eq!(catalog.dep_is_satisfied(&clause), None);
    assert_eq!(catalog.dep_satisfied_by_wrong_version(&clause), vec![b, b]);
    let nothing_installed: Dependency = vec![any(a), any(c)];
    assert_eq!(catalog.dep_is_satisfied(&nothing_installed), None);
    assert!(catalog.dep_satisfied_by_wrong_version(&nothing_installed).is_empty());
}

#[test]
fn an_empty_clause_is_never_satisfied() {
    let catalog = Packages::new();
    let clause: Dependency = Vec::new();
    assert_eq!(catalog.dep_is_satisfied(&clause), None);
    assert!(!catalog.clause_satisfied(&clause));
    assert!(catalog.dep_satisfied_by_wrong_version(&clause).is_empty());
}

#[test]
fn alternatives_naming_unknown_packages_count_as_missing() {
    let catalog = Packages::new();
    let clause: Dependency = vec![any(4)];
    assert_eq!(catalog.dep_is_satisfied(&clause), None);
    assert!(!catalog.alternative_satisfied(&clause[0]));
    assert!(catalog.dep_satisfied_by_wrong_version(&clause).is_empty());
}

#[test]
fn no_satisfier_exactly_when_the_clause_is_unsatisfied() {
    let mut catalog = Packages::new();
    let a = catalog.get_package_num_inserting("a");
    let b = catalog.get_package_num_inserting("b");
    catalog.set_installed(a, version("1.0")).unwrap();
    let clauses: Vec<Dependency> = vec![
        vec![any(a)],
        vec![any(b)],
        vec![with(a, VersionRelation::StrictlyGreater, "1.0")],
        vec![with(a, VersionRelation::LessOrEqual, "1.0"), any(b)],
        vec![any(b), with(a, VersionRelation::GreaterOrEqual, "0.5")],
        vec![],
    ];
    for clause in &clauses {
        assert_eq!(catalog.dep_is_satisfied(clause).is_none(), !catalog.clause_satisfied(clause));
        let wrong = catalog.dep_satisfied_by_wrong_version(clause);
        if catalog.dep_is_satisfied(clause).is_some() {
            assert!(wrong.is_empty());
        }
        for id in wrong {
            assert!(catalog.is_installed(id));
            assert!(clause.iter().any(|alt| alt.package_num == id));
        }
    }
}

#[test]
fn every_dependency_of_a_package_is_reported_with_its_outcome() {
    let mut catalog = Packages::new();
    let app = catalog.get_package_num_inserting("app");
    let lib = catalog.get_package_num_inserting("lib");
    let tool = catalog.get_package_num_inserting("tool");
    let gone = catalog.get_package_num_inserting("gone");
    catalog.set_installed(lib, version("1.0")).unwrap();
    catalog.set_installed(tool, version("1.5")).unwrap();
    catalog
        .add_dependency_set(
            app,
            vec![
                vec![with(lib, VersionRelation::GreaterOrEqual, "2.0"), with(tool, VersionRelation::Equal, "1.5")],
                vec![any(gone)],
                vec![with(lib, VersionRelation::StrictlyGreater, "1.0"), any(gone)],
            ],
        )
        .unwrap();
    let report = catalog.deps_available("app").unwrap();
    assert_eq!(report.len(), 3);
    assert_eq!(report[0].0.len(), 2);
    assert_eq!(report[0].0[0].package_num, lib);
    assert!(matches!(report[0].1, DependencyOutcome::SatisfiedBy(p) if p == tool));
    assert_eq!(report[1].0[0].package_num, gone);
    assert!(matches!(report[1].1, DependencyOutcome::MissingAll));
    assert!(matches!(&report[2].1, DependencyOutcome::WrongVersion(ids) if *ids == vec![lib]));
    assert!(catalog.deps_available("lib").unwrap().is_empty());
    assert!(matches!(catalog.deps_available("nobody"), Err(ResolutionFailure::UnknownPackage)));
}
