use sb::list::List;
use sb::make::{create_code_from_slices, emission_order, generate_code_for_list};
use sb::options::Format;
use sb::section::{Kind, Section};
use sb::slice::Slice;
use sb::version::zero;
use sb::{RequestedSlice, VersionMatchStrategy};

fn slice(name: &str, run: &str, dependencies: Vec<&str>) -> Slice {
    let mut sections = vec![
        Section { kind: Kind::Os, items: vec!["debian-8.2".to_string()] },
        Section { kind: Kind::Run, items: vec![run.to_string()] },
    ];
    if !dependencies.is_empty() {
        sections.push(Section { kind: Kind::Dep, items: dependencies.into_iter().map(str::to_string).collect() });
    }
    Slice { name: name.to_string(), version: zero(), path: String::new(), sections }
}

fn request(name: &str) -> RequestedSlice {
    RequestedSlice { name: name.to_string(), version: zero(), version_match_strategy: VersionMatchStrategy::ExactOrGreater }
}

#[test]
fn emits_dependencies_before_dependents() {
    let catalog = vec![
        slice("jekyll", "gem install jekyll", vec!["ruby"]),
        slice("wget", "apt-get install wget", Vec::new()),
        slice("ruby", "build ruby", vec!["wget"]),
    ];
    let list = List::from_slices(catalog, VersionMatchStrategy::ExactOrGreater);
    let code = generate_code_for_list(&list, &vec![request("jekyll")], &Format::Shell).unwrap();
    assert_eq!(code, "apt-get install wget\nbuild ruby\ngem install jekyll\n");
    let code = generate_code_for_list(&list, &vec![request("jekyll")], &Format::Docker).unwrap();
    assert_eq!(code, "RUN apt-get install wget\nRUN build ruby\nRUN gem install jekyll\n");
}

#[test]
fn shared_dependency_is_emitted_once() {
    let catalog = vec![
        slice("base", "base", Vec::new()),
        slice("left", "left", vec!["base"]),
        slice("right", "right", vec!["base"]),
        slice("top", "top", vec!["left", "right"]),
    ];
    let list = List::from_slices(catalog, VersionMatchStrategy::ExactOrGreater);
    let code = generate_code_for_list(&list, &vec![request("top"), request("right")], &Format::Shell).unwrap();
    assert_eq!(code, "base\nleft\nright\ntop\n");
}

#[test]
fn emission_order_visits_each_entry_once() {
    let catalog = vec![
        slice("base", "base", Vec::new()),
        slice("left", "left", vec!["base"]),
        slice("right", "right", vec!["base"]),
        slice("top", "top", vec!["left", "right"]),
    ];
    let list = List::from_slices(catalog, VersionMatchStrategy::ExactOrGreater);
    let top = list.find_slice_index("top", &zero(), VersionMatchStrategy::ExactOrGreater).unwrap();
    let order = emission_order(&list.slices, &vec![top, top]);
    assert_eq!(order.len(), 4);
    let code = create_code_from_slices(&list.slices, &order, &Format::Shell);
    assert_eq!(code, "base\nleft\nright\ntop\n");
}

#[test]
fn missing_dependency_blocks_emission() {
    let catalog = vec![
        slice("ruby", "build ruby", vec!["curl"]),
        slice("apache", "install apache", vec!["ruby", "gooo"]),
        slice("wget", "apt-get install wget", Vec::new()),
    ];
    let list = List::from_slices(catalog, VersionMatchStrategy::ExactOrGreater);
    assert_eq!(list.unresolved_dependencies(), vec!["curl".to_string(), "gooo".to_string()]);
    assert!(list.find_slice("apache", &zero(), VersionMatchStrategy::ExactOrGreater).is_some());
    let result = generate_code_for_list(&list, &vec![request("apache")], &Format::Shell);
    let result = result.unwrap_err();
    assert_eq!(result.blocked_requested_slices.len(), 1);
    assert!(result.found_requested_slices.is_empty());
    assert!(result.missing_requested_slices.is_empty());
    assert!(generate_code_for_list(&list, &vec![request("wget")], &Format::Shell).is_ok());
}

#[test]
fn transitive_missing_dependency_blocks_emission() {
    let catalog = vec![slice("ruby", "build ruby", vec!["curl"]), slice("jekyll", "gem", vec!["ruby"])];
    let list = List::from_slices(catalog, VersionMatchStrategy::ExactOrGreater);
    let result = generate_code_for_list(&list, &vec![request("jekyll")], &Format::Shell).unwrap_err();
    assert_eq!(result.blocked_requested_slices.len(), 1);
}

#[test]
fn unknown_request_is_reported() {
    let list = List::from_slices(vec![slice("wget", "w", Vec::new())], VersionMatchStrategy::ExactOrGreater);
    let result = generate_code_for_list(&list, &vec![request("wget"), request("nothing")], &Format::Shell).unwrap_err();
    assert_eq!(result.missing_requested_slices, vec![1]);
    assert_eq!(result.found_requested_slices.len(), 1);
}

#[test]
fn diamond_is_written_in_depth_first_post_order() {
    let catalog = vec![
        slice("d", "d", Vec::new()),
        slice("b", "b", vec!["d"]),
        slice("c", "c", vec!["d"]),
        slice("a", "a", vec!["b", "c"]),
    ];
    let list = List::from_slices(catalog, VersionMatchStrategy::ExactOrGreater);
    let code = generate_code_for_list(&list, &vec![request("a")], &Format::Shell).unwrap();
    assert_eq!(code, "d\nb\nc\na\n");
}

#[test]
fn missing_names_below_a_blocked_request() {
    let catalog = vec![
        slice("ruby", "build ruby", vec!["curl"]),
        slice("apache", "install apache", vec!["ruby", "gooo"]),
        slice("site", "site", vec!["ruby"]),
    ];
    let list = List::from_slices(catalog, VersionMatchStrategy::ExactOrGreater);
    let apache = list.find_slice_index("apache", &zero(), VersionMatchStrategy::ExactOrGreater).unwrap();
    assert_eq!(sb::make::missing_dependencies_below(&list.slices, apache), vec!["gooo".to_string()]);
    let site = list.find_slice_index("site", &zero(), VersionMatchStrategy::ExactOrGreater).unwrap();
    assert_eq!(sb::make::missing_dependencies_below(&list.slices, site), vec!["curl".to_string()]);
}
