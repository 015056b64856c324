use rpkg::debversion::VersionRelation;
use rpkg::packages::parsers::{
    alternative_from_groups, key_value_from_groups, kv_captures, read_depends_value, version_captures,
    ParseError,
};
use rpkg::text::{chars_of, split, trim};
use rpkg::Packages;

fn groups(texts: &[Option<&str>]) -> Option<Vec<Option<String>>> {
    Some(texts.iter().map(|t| t.map(|s| s.to_string())).collect())
}

fn lines(texts: &[&str]) -> Vec<String> {
    texts.iter().map(|s| s.to_string()).collect()
}

fn text(chars: &[char]) -> String {
    chars.iter().collect()
}

#[test]
fn text_is_split_at_every_separator() {
    let pieces = |s: &str| -> Vec<String> { split(&chars_of(s), ',').iter().map(|p| text(p)).collect() };
    assert_eq!(pieces("a,b,c"), vec!["a", "b", "c"]);
    assert_eq!(pieces(""), vec![""]);
    assert_eq!(pieces(","), vec!["", ""]);
    assert_eq!(pieces("a,,b,"), vec!["a", "", "b", ""]);
    assert_eq!(pieces("no separator"), vec!["no separator"]);
}

#[test]
fn blanks_are_trimmed_at_both_ends() {
    let trimmed = |s: &str| text(&trim(&chars_of(s)));
    assert_eq!(trimmed("  1.0 \t\r\n"), "1.0");
    assert_eq!(trimmed("1.0"), "1.0");
    assert_eq!(trimmed(" a b "), "a b");
    assert_eq!(trimmed("   "), "");
    assert_eq!(trimmed(""), "");
}

#[test]
fn a_line_is_taken_apart_into_key_and_value() {
    assert_eq!(
        kv_captures("Package: libc6").unwrap(),
        Some(("Package".to_string(), "libc6".to_string()))
    );
    assert_eq!(
        kv_captures("Depends: a (>= 1.0), b | c").unwrap(),
        Some(("Depends".to_string(), "a (>= 1.0), b | c".to_string()))
    );
    assert_eq!(
        kv_captures("Installed-Size: 12").unwrap(),
        Some(("Installed-Size".to_string(), "12".to_string()))
    );
    assert_eq!(kv_captures(" continuation line").unwrap(), None);
    assert_eq!(kv_captures("").unwrap(), None);
    assert_eq!(kv_captures("Key:").unwrap(), None);
}

#[test]
fn key_and_value_are_the_first_and_third_group() {
    let found = groups(&[Some("K: v"), Some("K"), Some("K"), Some("v")]);
    assert_eq!(key_value_from_groups(&found), Some(("K".to_string(), "v".to_string())));
    assert_eq!(key_value_from_groups(&None), None);
    assert_eq!(key_value_from_groups(&groups(&[Some("K: v"), Some("K")])), None);
    assert_eq!(key_value_from_groups(&groups(&[Some("x"), None, None, Some("v")])), None);
    assert_eq!(key_value_from_groups(&groups(&[Some("x"), Some("K"), None, None])), None);
}

#[test]
fn an_alternative_is_built_from_its_groups() {
    let full = groups(&[
        Some("lib (>= 2.0)"),
        Some("lib"),
        Some("b"),
        Some(" (>= 2.0)"),
        Some(">="),
        Some(">"),
        Some("="),
        Some("2.0"),
    ]);
    let (name, constraint) = alternative_from_groups(&full).unwrap();
    assert_eq!(name, "lib");
    let (relation, required) = constraint.unwrap();
    assert_eq!(relation, VersionRelation::GreaterOrEqual);
    assert_eq!(required.to_string(), "2.0");

    let bare = groups(&[Some("lib"), Some("lib"), Some("b"), None, None, None, None, None]);
    let (name, constraint) = alternative_from_groups(&bare).unwrap();
    assert_eq!(name, "lib");
    assert!(constraint.is_none());

    let short = groups(&[Some("lib"), Some("lib")]);
    assert!(alternative_from_groups(&short).unwrap().1.is_none());
}

#[test]
fn each_way_an_alternative_can_be_wrong_has_its_error() {
    assert_eq!(alternative_from_groups(&None).unwrap_err(), ParseError::MalformedAlternative);
    assert_eq!(alternative_from_groups(&groups(&[])).unwrap_err(), ParseError::MalformedAlternative);
    assert_eq!(
        alternative_from_groups(&groups(&[Some("x"), None])).unwrap_err(),
        ParseError::MalformedAlternative
    );
    let with = |op: Option<&str>, ver: Option<&str>| {
        groups(&[Some("x"), Some("lib"), None, None, op, None, None, ver])
    };
    assert_eq!(alternative_from_groups(&with(Some("<>"), Some("1.0"))).unwrap_err(), ParseError::UnknownRelation);
    assert_eq!(alternative_from_groups(&with(Some("<"), Some("1.0"))).unwrap_err(), ParseError::UnknownRelation);
    assert_eq!(alternative_from_groups(&with(Some("="), None)).unwrap_err(), ParseError::MalformedVersion);
    assert_eq!(alternative_from_groups(&with(Some("="), Some(""))).unwrap_err(), ParseError::MalformedVersion);
    assert_eq!(alternative_from_groups(&with(Some("="), Some("1 0"))).unwrap_err(), ParseError::MalformedVersion);
    let short = groups(&[Some("x"), Some("lib"), None, None, Some("=")]);
    assert_eq!(alternative_from_groups(&short).unwrap_err(), ParseError::MalformedVersion);
}

#[test]
fn the_text_of_an_alternative_is_taken_apart() {
    let (name, constraint) = version_captures("libstdc++6 (>= 4.1.1-21)").unwrap();
    assert_eq!(name, "libstdc++6");
    let (relation, required) = constraint.unwrap();
    assert_eq!(relation, VersionRelation::GreaterOrEqual);
    assert_eq!(required.to_string(), "4.1.1-21");

    let (name, constraint) = version_captures(" debconf-2.0 ").unwrap();
    assert_eq!(name, "debconf-2.0");
    assert!(constraint.is_none());

    let (name, constraint) = version_captures("x (<< 1:2.0~rc1)").unwrap();
    assert_eq!(name, "x");
    let (relation, required) = constraint.unwrap();
    assert_eq!(relation, VersionRelation::StrictlyLess);
    assert_eq!(required.to_string(), "1:2.0~rc1");

    assert_eq!(version_captures("x (= 1.0)").unwrap().1.unwrap().0, VersionRelation::Equal);
    assert_eq!(version_captures("x (<= 1.0)").unwrap().1.unwrap().0, VersionRelation::LessOrEqual);
    assert_eq!(version_captures("x (>> 1.0)").unwrap().1.unwrap().0, VersionRelation::StrictlyGreater);
    assert_eq!(version_captures("   ").unwrap_err(), ParseError::MalformedAlternative);
    assert_eq!(version_captures("").unwrap_err(), ParseError::MalformedAlternative);
    assert_eq!(version_captures("x (< 1.0)").unwrap_err(), ParseError::UnknownRelation);
    assert_eq!(version_captures("x (>= 1 0)").unwrap_err(), ParseError::MalformedVersion);
}

#[test]
fn a_depends_value_is_an_and_of_ors() {
    let read = read_depends_value("a (>= 1.0), b | c (<< 2.0) | d, e").unwrap();
    let shape: Vec<Vec<(String, Option<(VersionRelation, String)>)>> = read
        .iter()
        .map(|clause| {
            clause
                .iter()
                .map(|(name, c)| (name.clone(), c.as_ref().map(|(r, v)| (*r, v.to_string()))))
                .collect()
        })
        .collect();
    assert_eq!(
        shape,
        vec![
            vec![("a".to_string(), Some((VersionRelation::GreaterOrEqual, "1.0".to_string())))],
            vec![
                ("b".to_string(), None),
                ("c".to_string(), Some((VersionRelation::StrictlyLess, "2.0".to_string()))),
                ("d".to_string(), None),
            ],
            vec![("e".to_string(), None)],
        ]
    );
    assert_eq!(read_depends_value("a, , b").unwrap_err(), ParseError::MalformedAlternative);
    assert_eq!(read_depends_value("a | b (== 1)").unwrap_err(), ParseError::UnknownRelation);
    assert_eq!(read_depends_value("").unwrap_err(), ParseError::MalformedAlternative);
}

#[test]
fn depends_names_packages_before_their_records() {
    let mut catalog = Packages::new();
    let app = catalog.get_package_num_inserting("app");
    assert!(catalog.parse_depends(app, "lib (>= 2.0) | libalt, tool (= 1.5)").is_ok());
    assert_eq!(catalog.len(), 4);
    let lib = catalog.get_package_num("lib").unwrap();
    let libalt = catalog.get_package_num("libalt").unwrap();
    let tool = catalog.get_package_num("tool").unwrap();
    assert_eq!((lib, libalt, tool), (1, 2, 3));
    assert!(catalog.available_version(lib).is_none());
    let clauses = catalog.dependencies_of(app);
    assert_eq!(clauses.len(), 2);
    assert_eq!(clauses[0].iter().map(|a| a.package_num).collect::<Vec<_>>(), vec![lib, libalt]);
    assert_eq!(clauses[0][0].rel_version.as_ref().unwrap().0, VersionRelation::GreaterOrEqual);
    assert_eq!(clauses[0][0].rel_version.as_ref().unwrap().1.to_string(), "2.0");
    assert!(clauses[0][1].rel_version.is_none());
    assert_eq!(clauses[1][0].package_num, tool);
    assert!(catalog.parse_depends(app, "app | lib").is_ok());
    assert_eq!(catalog.len(), 4);
    assert_eq!(catalog.dependencies_of(app).len(), 3);
    assert_eq!(catalog.dependencies_of(app)[2][0].package_num, app);
}

#[test]
fn a_depends_value_that_cannot_be_read_changes_nothing() {
    let mut catalog = Packages::new();
    let app = catalog.get_package_num_inserting("app");
    assert_eq!(catalog.parse_depends(app, "lib, other (? 1.0), (").unwrap_err(), ParseError::MalformedAlternative);
    assert_eq!(catalog.parse_depends(app, "lib, other (=> 1.0)").unwrap_err(), ParseError::UnknownRelation);
    assert_eq!(catalog.parse_depends(app, "lib, other (>= 1:)").unwrap_err(), ParseError::MalformedVersion);
    assert_eq!(catalog.parse_depends(3, "lib").unwrap_err(), ParseError::UnknownPackage);
    assert_eq!(catalog.len(), 1);
    assert!(catalog.dependencies_of(app).is_empty());
}

#[test]
fn installed_records_give_installed_versions() {
    let mut catalog = Packages::new();
    let status = lines(&[
        "Package: lib",
        "Status: install ok installed",
        "Version: 1.0-2 ",
        "Depends: ignored (>= 1.0)",
        "",
        "Package: tool",
        "Version: 2:1.5",
        "Description: a tool",
        " with a second line",
    ]);
    assert!(catalog.parse_installed(&status).is_ok());
    assert_eq!(catalog.len(), 2);
    let lib = catalog.get_package_num("lib").unwrap();
    let tool = catalog.get_package_num("tool").unwrap();
    assert_eq!(catalog.installed_version(lib).unwrap().to_string(), "1.0-2");
    assert_eq!(catalog.installed_version(tool).unwrap().to_string(), "2:1.5");
    assert!(catalog.available_version(lib).is_none());
    assert!(catalog.dependencies_of(lib).is_empty());
    assert!(!catalog.package_exists("ignored"));
}

#[test]
fn available_records_give_versions_on_offer_and_dependencies() {
    let mut catalog = Packages::new();
    assert!(catalog.parse_installed(&lines(&["Package: lib", "Version: 1.0"])).is_ok());
    let offer = lines(&[
        "Package: app",
        "Version: 3.0",
        "Depends: lib (>= 2.0) | libalt, tool",
        "",
        "Package: lib",
        "Version: 2.0",
        "",
        "Package: tool",
        "Version: 1.5",
        "Depends: lib",
    ]);
    assert!(catalog.parse_packages(&offer).is_ok());
    let id = |name: &str| catalog.get_package_num(name).unwrap();
    assert_eq!((id("lib"), id("app"), id("libalt"), id("tool")), (0, 1, 2, 3));
    assert_eq!(catalog.installed_version(id("lib")).unwrap().to_string(), "1.0");
    assert_eq!(catalog.available_version(id("lib")).unwrap().to_string(), "2.0");
    assert_eq!(catalog.available_version(id("app")).unwrap().to_string(), "3.0");
    assert!(catalog.available_version(id("libalt")).is_none());
    assert_eq!(catalog.dependencies_of(id("app")).len(), 2);
    assert_eq!(catalog.dependencies_of(id("tool")).len(), 1);
    let plan: Vec<(usize, String)> = catalog
        .compute_how_to_install("app")
        .unwrap()
        .iter()
        .map(|(p, v)| (*p, v.to_string()))
        .collect();
    assert_eq!(plan, vec![(id("lib"), "2.0".to_string()), (id("tool"), "1.5".to_string())]);
}

#[test]
fn reading_stops_at_the_first_bad_line() {
    let mut catalog = Packages::new();
    let offer = lines(&["Package: a", "Version: 1.0", "Package: b", "Version: not a version", "Package: c"]);
    assert_eq!(catalog.parse_packages(&offer).unwrap_err(), ParseError::MalformedVersion);
    assert_eq!(catalog.len(), 2);
    assert_eq!(catalog.available_version(0).unwrap().to_string(), "1.0");
    assert!(catalog.available_version(1).is_none());
    assert!(!catalog.package_exists("c"));
}

#[test]
fn a_version_without_a_package_is_turned_down() {
    let mut catalog = Packages::new();
    assert_eq!(catalog.parse_installed(&lines(&["Version: 1.0"])).unwrap_err(), ParseError::UnknownPackage);
    assert_eq!(catalog.parse_packages(&lines(&["Depends: a"])).unwrap_err(), ParseError::UnknownPackage);
    assert_eq!(catalog.len(), 0);
}
