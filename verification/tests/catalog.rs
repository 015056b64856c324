use rpkg::debversion::{DebianVersionNum, VersionRelation};
use rpkg::packages::{RelVersionedPackageNum, ResolutionFailure};
use rpkg::Packages;

fn version(text: &str) -> DebianVersionNum {
    DebianVersionNum::parse(text).expect("a version number")
}

fn shown(v: Option<&DebianVersionNum>) -> Option<String> {
    v.map(|v| v.to_string())
}

#[test]
fn names_get_numbers_in_the_order_of_first_mention() {
    let mut catalog = Packages::new();
    assert_eq!(catalog.len(), 0);
    assert_eq!(catalog.get_package_num_inserting("app"), 0);
    assert_eq!(catalog.get_package_num_inserting("lib"), 1);
    assert_eq!(catalog.get_package_num_inserting("app"), 0);
    assert_eq!(catalog.get_package_num_inserting("tool"), 2);
    assert_eq!(catalog.get_package_num_inserting("lib"), 1);
    assert_eq!(catalog.len(), 3);
    assert_eq!(catalog.get_package_num("tool"), Some(2));
    assert_eq!(catalog.get_package_num("nothing"), None);
    assert!(catalog.package_exists("lib"));
    assert!(!catalog.package_exists("Lib"));
}

#[test]
fn numbers_lead_back_to_names() {
    let mut catalog = Packages::new();
    for name in ["a", "b", "c"] {
        let id = catalog.get_package_num_inserting(name);
        assert_eq!(catalog.get_package_name(id).unwrap(), name);
    }
    assert!(matches!(catalog.get_package_name(3), Err(ResolutionFailure::UnknownPackage)));
}

#[test]
fn a_new_package_has_no_versions_and_no_dependencies() {
    let mut catalog = Packages::new();
    let id = catalog.get_package_num_inserting("fresh");
    assert!(!catalog.is_installed(id));
    assert!(catalog.installed_version(id).is_none());
    assert!(catalog.available_version(id).is_none());
    assert!(catalog.dependencies_of(id).is_empty());
}

#[test]
fn the_last_version_written_wins() {
    let mut catalog = Packages::new();
    let id = catalog.get_package_num_inserting("lib");
    assert!(catalog.set_installed(id, version("1.0")).is_ok());
    assert!(catalog.set_installed(id, version("1.1")).is_ok());
    assert!(catalog.set_available(id, version("2.0")).is_ok());
    assert!(catalog.set_available(id, version("2.1-3")).is_ok());
    assert!(catalog.is_installed(id));
    assert_eq!(shown(catalog.installed_version(id)), Some("1.1".to_string()));
    assert_eq!(shown(catalog.available_version(id)), Some("2.1-3".to_string()));
}

#[test]
fn recording_the_same_installed_version_twice_changes_nothing() {
    let mut catalog = Packages::new();
    let lib = catalog.get_package_num_inserting("lib");
    let other = catalog.get_package_num_inserting("other");
    assert!(catalog.set_installed(other, version("3")).is_ok());
    assert!(catalog.set_installed(lib, version("1.0")).is_ok());
    let once = (shown(catalog.installed_version(lib)), shown(catalog.installed_version(other)));
    assert!(catalog.set_installed(lib, version("1.0")).is_ok());
    let twice = (shown(catalog.installed_version(lib)), shown(catalog.installed_version(other)));
    assert_eq!(once, twice);
    assert_eq!(catalog.len(), 2);
    assert!(catalog.available_version(lib).is_none());
}

#[test]
fn versions_of_unknown_packages_are_turned_down() {
    let mut catalog = Packages::new();
    catalog.get_package_num_inserting("only");
    assert!(matches!(catalog.set_installed(1, version("1.0")), Err(ResolutionFailure::UnknownPackage)));
    assert!(matches!(catalog.set_available(7, version("1.0")), Err(ResolutionFailure::UnknownPackage)));
    assert!(!catalog.is_installed(1));
    assert!(catalog.installed_version(7).is_none());
    assert!(catalog.available_version(7).is_none());
    assert!(catalog.dependencies_of(7).is_empty());
}

#[test]
fn dependency_sets_are_appended() {
    let mut catalog = Packages::new();
    let app = catalog.get_package_num_inserting("app");
    let lib = catalog.get_package_num_inserting("lib");
    let tool = catalog.get_package_num_inserting("tool");
    let first = vec![vec![RelVersionedPackageNum { package_num: lib, rel_version: None }]];
    let second = vec![
        vec![
            RelVersionedPackageNum {
                package_num: tool,
                rel_version: Some((VersionRelation::GreaterOrEqual, version("2.0"))),
            },
            RelVersionedPackageNum { package_num: lib, rel_version: None },
        ],
    ];
    assert!(catalog.add_dependency_set(app, first).is_ok());
    assert!(catalog.add_dependency_set(app, second).is_ok());
    let clauses = catalog.dependencies_of(app);
    assert_eq!(clauses.len(), 2);
    assert_eq!(clauses[0].len(), 1);
    assert_eq!(clauses[0][0].package_num, lib);
    assert_eq!(clauses[1].len(), 2);
    assert_eq!(clauses[1][0].package_num, tool);
    let (relation, required) = clauses[1][0].rel_version.as_ref().unwrap();
    assert_eq!(*relation, VersionRelation::GreaterOrEqual);
    assert_eq!(required.to_string(), "2.0");
    assert_eq!(clauses[1][1].package_num, lib);
    assert!(catalog.dependencies_of(lib).is_empty());
}

#[test]
fn dependencies_on_unknown_packages_are_turned_down() {
    let mut catalog = Packages::new();
    let app = catalog.get_package_num_inserting("app");
    let stray = vec![vec![RelVersionedPackageNum { package_num: 5, rel_version: None }]];
    assert!(matches!(catalog.add_dependency_set(app, stray), Err(ResolutionFailure::UnknownPackage)));
    let fine = vec![vec![RelVersionedPackageNum { package_num: app, rel_version: None }]];
    assert!(matches!(catalog.add_dependency_set(9, fine), Err(ResolutionFailure::UnknownPackage)));
    assert!(catalog.dependencies_of(app).is_empty());
}
