use sb::list::{Dependencies, DependentSlice, List};
use sb::section::{Kind, Section};
use sb::slice::Slice;
use sb::version::{parse, zero, Version};
use sb::VersionMatchStrategy;

fn slice_with(name: &str, version: Version, dependencies: Vec<&str>) -> Slice {
    let mut sections = vec![Section { kind: Kind::Run, items: vec![String::from("nothing")] }];
    if !dependencies.is_empty() {
        let items = dependencies.into_iter().map(str::to_string).collect();
        sections.push(Section { kind: Kind::Dep, items });
    }
    Slice { name: String::from(name), version, path: String::new(), sections }
}

fn slice(name: &str, dependencies: Vec<&str>) -> Slice {
    slice_with(name, zero(), dependencies)
}

fn index_of(list: &List, name: &str) -> usize {
    list.find_slice_index(name, &zero(), VersionMatchStrategy::ExactOrGreater).unwrap()
}

fn prepare_list_to_test_find_slice() -> List {
    let slices = vec![
        slice("a", Vec::new()),
        slice_with("a", parse("0.5.0").unwrap(), Vec::new()),
        slice_with("a", parse("1.0.0").unwrap(), Vec::new()),
    ];
    List::from_slices(slices, VersionMatchStrategy::ExactOrGreater)
}

#[test]
fn find_slice_with_exact_version() {
    let list = prepare_list_to_test_find_slice();
    let slice = list.find_slice("a", &parse("0.5.0").unwrap(), VersionMatchStrategy::Exact);
    let slice = slice.expect("slice was not found");
    assert_eq!(slice.name(), "a");
    assert_eq!(*slice.version(), parse("0.5.0").unwrap());
}

#[test]
fn find_slice_with_exact_or_lesser_version() {
    let list = prepare_list_to_test_find_slice();
    let slice = list.find_slice("a", &parse("0.7.0").unwrap(), VersionMatchStrategy::ExactOrLesser);
    let slice = slice.expect("slice was not found");
    assert_eq!(slice.name(), "a");
    assert_eq!(*slice.version(), parse("0.5.0").unwrap());
}

#[test]
fn find_slice_with_exact_or_greater_version() {
    let list = prepare_list_to_test_find_slice();
    let slice = list.find_slice("a", &parse("0.7.0").unwrap(), VersionMatchStrategy::ExactOrGreater);
    let slice = slice.expect("slice was not found");
    assert_eq!(slice.name(), "a");
    assert_eq!(*slice.version(), parse("1.0.0").unwrap());
}

#[test]
fn find_slice_not_found() {
    let list = prepare_list_to_test_find_slice();
    assert!(list.find_slice("a", &parse("2.0.0").unwrap(), VersionMatchStrategy::ExactOrGreater).is_none());
    assert!(list.find_slice("b", &zero(), VersionMatchStrategy::ExactOrGreater).is_none());
}

#[test]
fn find_slice_is_repeatable() {
    let list = prepare_list_to_test_find_slice();
    let v = parse("0.7.0").unwrap();
    let first = list.find_slice_index("a", &v, VersionMatchStrategy::ExactOrLesser);
    let second = list.find_slice_index("a", &v, VersionMatchStrategy::ExactOrLesser);
    assert_eq!(first, second);
    assert!(first.is_some());
}

#[test]
fn find_similar_slices() {
    let slices = vec![slice("a", Vec::new()), slice("ab", Vec::new()), slice("bc", Vec::new())];
    let list = List::from_slices(slices, VersionMatchStrategy::ExactOrGreater);
    let similar_slices = list.find_similar_slices("a");
    let similar_slice_names = similar_slices.into_iter().map(|i| list.slices[i].slice.name.as_str()).collect::<Vec<_>>();
    assert_eq!(similar_slice_names, vec!["a", "ab"]);
}

#[test]
fn list_unresolved_dependencies() {
    let first_slice = slice("first_slice", vec!["missing_dep_from_first_slice"]);
    let second_slice = slice("second_slice", vec!["first_slice"]);
    let third_slice = slice("third_slice", vec!["missing_dep_from_third_slice"]);
    let list = List::from_slices(vec![first_slice, second_slice, third_slice], VersionMatchStrategy::ExactOrGreater);
    let unresolved_deps = list.unresolved_dependencies();
    assert_eq!(unresolved_deps, vec![String::from("missing_dep_from_first_slice"),
                                     String::from("missing_dep_from_third_slice")]);
}

#[test]
fn unresolved_dependencies_are_listed_once() {
    let list = List::from_slices(
        vec![slice("a", vec!["x", "y"]), slice("b", vec!["x"]), slice("c", vec!["y", "z"])],
        VersionMatchStrategy::ExactOrGreater,
    );
    assert_eq!(list.unresolved_dependencies(), vec!["x".to_string(), "y".to_string(), "z".to_string()]);
}

#[test]
fn slice_unresolved_dependencies() {
    let list = List::from_slices(vec![slice("slice2", vec!["slice3"]), slice("slice1", vec!["slice2", "slice4"])],
                                 VersionMatchStrategy::ExactOrGreater);
    let slice1 = &list.slices[index_of(&list, "slice1")];
    assert_eq!(slice1.unresolved_dependencies().to_vec(), vec![String::from("slice4")]);
}

#[test]
fn dependent_slice_has_unresolved_dependencies() {
    let slice_a = DependentSlice { slice: slice("wget", Vec::new()), dependencies: Dependencies::Resolved(Vec::new()) };
    assert!(!slice_a.has_unresolved_dependencies());
    let slice_b = DependentSlice { slice: slice("ruby", vec!["wget"]),
                                   dependencies: Dependencies::Unresolved(vec!["wget".to_string()]) };
    assert!(slice_b.has_unresolved_dependencies());
}

#[test]
fn dependent_slice_without_dependencies() {
    let slice_a = DependentSlice { slice: slice("wget", Vec::new()), dependencies: Dependencies::Resolved(Vec::new()) };
    assert!(!slice_a.has_unresolved_dependencies());
    assert!(slice_a.resolved_dependencies().is_empty());
}

#[test]
fn dependent_slice_with_resolved_dependencies() {
    let list = List::from_slices(vec![slice("wget", Vec::new()), slice("ruby", vec!["wget"])],
                                 VersionMatchStrategy::ExactOrGreater);
    let ruby = &list.slices[index_of(&list, "ruby")];
    assert!(!ruby.has_unresolved_dependencies());
    let dependencies = ruby.resolved_dependencies();
    assert_eq!(dependencies.len(), 1);
    assert_eq!(list.slices[dependencies[0]].content().name(), "wget");
}

#[test]
fn dependent_slice_with_unresolved_dependencies() {
    let slice_a = DependentSlice { slice: slice("ruby", vec!["wget"]),
                                   dependencies: Dependencies::Unresolved(vec!["wget".to_string()]) };
    assert!(slice_a.has_unresolved_dependencies());
    let dependencies = slice_a.unresolved_dependencies();
    assert_eq!(dependencies.len(), 1);
    assert_eq!(dependencies[0], "wget");
}

#[test]
fn slice_list_from_slices() {
    let slice_list = List::from_slices(vec![slice("wget", Vec::new()), slice("ruby", vec!["wget"])],
                                       VersionMatchStrategy::ExactOrGreater);
    assert!(slice_list.unresolved_dependencies().is_empty());
    let wget = &slice_list.slices[index_of(&slice_list, "wget")];
    assert!(!wget.has_unresolved_dependencies());
    assert!(wget.resolved_dependencies().is_empty());
    let ruby = &slice_list.slices[index_of(&slice_list, "ruby")];
    assert!(!ruby.has_unresolved_dependencies());
    let dependencies = ruby.resolved_dependencies();
    assert_eq!(dependencies.len(), 1);
    assert_eq!(slice_list.slices[dependencies[0]].content().name(), "wget");
}

#[test]
fn slice_list_with_unresolved_dependencies() {
    let slices = vec![slice("wget", Vec::new()), slice("ruby", vec!["curl"]), slice("apache", vec!["ruby", "gooo"])];
    let slice_list = List::from_slices(slices, VersionMatchStrategy::ExactOrGreater);
    let dependencies = slice_list.unresolved_dependencies();
    assert_eq!(dependencies, vec!["curl", "gooo"]);
}

#[test]
fn every_entry_is_complete_or_missing() {
    let slices = vec![slice("wget", Vec::new()), slice("ruby", vec!["curl"]), slice("apache", vec!["ruby", "gooo"]),
                      slice("jekyll", vec!["ruby"]), slice("site", vec!["wget"])];
    let list = List::from_slices(slices, VersionMatchStrategy::ExactOrGreater);
    assert_eq!(list.slices.len(), 5);
    for entry in list.slices.iter() {
        let complete = !entry.has_unresolved_dependencies();
        let missing = !entry.unresolved_dependencies().is_empty();
        assert!(complete != missing);
    }
    let site = &list.slices[index_of(&list, "site")];
    assert!(!site.has_unresolved_dependencies());
}

#[test]
fn dependencies_come_before_dependents() {
    let slices = vec![slice("jekyll", vec!["ruby"]), slice("ruby", vec!["wget"]), slice("wget", Vec::new())];
    let list = List::from_slices(slices, VersionMatchStrategy::ExactOrGreater);
    let names: Vec<&str> = list.slices.iter().map(|e| e.slice.name.as_str()).collect();
    assert_eq!(names, vec!["wget", "ruby", "jekyll"]);
    for (i, entry) in list.slices.iter().enumerate() {
        for d in entry.resolved_dependencies() {
            assert!(*d < i);
        }
    }
}

#[test]
fn highest_version_dependency_is_chosen() {
    let slices = vec![
        slice_with("ruby", parse("1.9.0").unwrap(), Vec::new()),
        slice("app", vec!["ruby"]),
        slice_with("ruby", parse("2.2.0").unwrap(), Vec::new()),
    ];
    let list = List::from_slices(slices, VersionMatchStrategy::ExactOrGreater);
    let app = &list.slices[index_of(&list, "app")];
    let d = app.resolved_dependencies()[0];
    assert_eq!(list.slices[d].slice.version, parse("2.2.0").unwrap());
}

#[test]
fn dependency_cycle_is_reported_missing() {
    let list = List::from_slices(vec![slice("a", vec!["b"]), slice("b", vec!["a"])], VersionMatchStrategy::ExactOrGreater);
    assert_eq!(list.unresolved_dependencies(), vec!["a".to_string()]);
}
