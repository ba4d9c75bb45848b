use sb::formatters::{docker_formatter, shell_formatter};
use sb::section::{Kind, Section};
use sb::slice::Slice;
use sb::version::zero;

fn create_slice(ancestors: Vec<&str>, preparations: Vec<&str>) -> Slice {
    let ancestors: Vec<String> = ancestors.into_iter().map(str::to_string).collect();
    let preparations: Vec<String> = preparations.into_iter().map(str::to_string).collect();
    let mut sections = Vec::new();
    if !ancestors.is_empty() {
        sections.push(Section { kind: Kind::From, items: ancestors });
    }
    sections.push(Section { kind: Kind::Run, items: preparations });
    Slice { name: String::from("Hello"), version: zero(), path: String::new(), sections }
}

#[test]
fn generate_code_for_slice_with_one_preparation() {
    let slice = create_slice(Vec::new(), vec!["apt-get install -q -y wget"]);
    assert_eq!(docker_formatter::generate_code(&slice), "RUN apt-get install -q -y wget\n");
}

#[test]
fn docker_formatter_generate_code_for_slice_with_one_ancestor_and_one_preparation() {
    let slice = create_slice(vec!["base"], vec!["apt-get install -q -y wget"]);
    assert_eq!(docker_formatter::generate_code(&slice), "FROM base

RUN apt-get install -q -y wget\n");
}

#[test]
fn generate_code_for_slice_with_two_ancestors_and_two_preparations() {
    let slice = create_slice(vec!["base", "another_base"],
                             vec!["apt-get install -q -y wget",
                                  "apt-get install -q -y wget_gui"]);
    assert_eq!(docker_formatter::generate_code(&slice), "FROM base
FROM another_base

RUN apt-get install -q -y wget && \\
apt-get install -q -y wget_gui
");
}

#[test]
fn shell_formatter_generate_code_for_slice_with_one_ancestor_and_one_preparation() {
    let slice = create_slice(vec!["base"], vec!["apt-get install -q -y wget"]);
    assert_eq!(shell_formatter::generate_code(&slice), "apt-get install -q -y wget\n");
}

#[test]
fn generate_code_for_slice_with_one_ancestor_and_two_preparations() {
    let slice = create_slice(vec!["base"], vec!["apt-get install -q -y wget",
                                                "apt-get install -q -y wget_gui"]);
    assert_eq!(shell_formatter::generate_code(&slice), "apt-get install -q -y wget
apt-get install -q -y wget_gui
");
}

#[test]
fn formats_are_dispatched() {
    let slice = create_slice(vec!["base"], vec!["a", "b"]);
    assert_eq!(sb::formatters::generate_code(&slice, &sb::options::Format::Shell), "a\nb\n");
    assert_eq!(sb::formatters::generate_code(&slice, &sb::options::Format::Docker), "FROM base\n\nRUN a && \\\nb\n");
}
