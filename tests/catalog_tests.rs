use sb::catalog::{build_catalog, filter_for_os, is_definition_file, slice_from_file};
use sb::os::Os;
use sb::section::{Kind, Section};
use sb::slice::{supports_os, Slice};
use sb::version::{parse, zero};
use sb::{SliceError, VersionMatchStrategy};

fn lines(text: &[&str]) -> Vec<String> {
    text.iter().map(|l| l.to_string()).collect()
}

fn os_slice(name: &str, oses: Vec<&str>) -> Slice {
    let sections = vec![Section { kind: Kind::Os, items: oses.into_iter().map(str::to_string).collect() }];
    Slice { name: name.to_string(), version: zero(), path: String::new(), sections }
}

#[test]
fn documentation_files_are_skipped() {
    assert!(!is_definition_file("README.md"));
    assert!(!is_definition_file("notes.txt"));
    assert!(is_definition_file("ruby-2.2"));
    assert!(is_definition_file("wget"));
    assert!(is_definition_file(".md"));
    assert!(is_definition_file("a.mdx"));
}

#[test]
fn file_becomes_a_slice() {
    let s = slice_from_file("x/ruby-2.2".to_string(), "ruby-2.2", lines(&["OS", "debian-8.2", "", "RUN", "make"]))
        .unwrap()
        .unwrap();
    assert_eq!(s.name, "ruby");
    assert_eq!(s.version, parse("2.2").unwrap());
    assert_eq!(s.path, "x/ruby-2.2");
    assert_eq!(s.sections.len(), 2);
    assert_eq!(s.get_run_list(), vec!["make".to_string()]);
}

#[test]
fn unparsable_file_is_dropped() {
    assert!(slice_from_file(String::new(), "notes", lines(&["hello"])).unwrap().is_none());
    assert_eq!(slice_from_file(String::new(), "ruby-2.x", lines(&["RUN", "a"])).unwrap_err(), SliceError::InvalidVersion);
}

#[test]
fn later_slice_replaces_same_name() {
    let mut a2 = os_slice("a", vec!["debian-8"]);
    a2.version = parse("2.0.0").unwrap();
    let catalog = build_catalog(vec![os_slice("a", vec!["debian-8"]), os_slice("b", vec![]), a2]);
    assert_eq!(catalog.len(), 2);
    assert_eq!(catalog[0].name, "a");
    assert_eq!(catalog[0].version, parse("2.0.0").unwrap());
    assert_eq!(catalog[1].name, "b");
}

#[test]
fn os_filter_keeps_supporting_slices() {
    let os = Os { name: "debian".to_string(), version: zero() };
    let kept = filter_for_os(
        vec![os_slice("a", vec!["debian-8.2", "ubuntu-14.3.2"]), os_slice("b", vec!["ubuntu-14.3.2"])],
        &os,
        VersionMatchStrategy::ExactOrGreater,
    )
    .unwrap();
    assert_eq!(kept.len(), 1);
    assert_eq!(kept[0].name, "a");
    let os = Os { name: "bebian".to_string(), version: zero() };
    let kept = filter_for_os(vec![os_slice("a", vec!["debian-8.2"])], &os, VersionMatchStrategy::ExactOrGreater).unwrap();
    assert!(kept.is_empty());
}

#[test]
fn os_version_policy_applies() {
    let os = Os { name: "debian".to_string(), version: parse("8.2").unwrap() };
    let s = os_slice("a", vec!["debian-8"]);
    assert_eq!(supports_os(&s, &os, VersionMatchStrategy::ExactOrGreater), Ok(false));
    assert_eq!(supports_os(&s, &os, VersionMatchStrategy::ExactOrLesser), Ok(true));
    assert_eq!(supports_os(&s, &os, VersionMatchStrategy::Exact), Ok(false));
}

#[test]
fn missing_os_section_is_an_error() {
    let os = Os { name: "debian".to_string(), version: zero() };
    let s = Slice { name: "a".to_string(), version: zero(), path: String::new(), sections: Vec::new() };
    assert_eq!(filter_for_os(vec![s], &os, VersionMatchStrategy::ExactOrGreater).unwrap_err(), SliceError::MissingOsSection);
}
